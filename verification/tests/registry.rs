use l10nregistry::registry::FileSource;
use l10nregistry::registry::L10nRegistry;
use l10nregistry::registry::RegistryError;
use l10nregistry::registry::permute_iter;

fn source(name: &str) -> FileSource {
    FileSource::new(String::from(name))
}

#[test]
fn register_and_snapshot() {
    let mut reg = L10nRegistry::new();
    reg.set_lang_ids(vec![String::from("en-US")]);
    reg.register_sources(vec![source("toolkit"), source("browser")]).unwrap();
    let locked = reg.lock();
    assert_eq!(locked.len(), 2);
    assert!(!locked.is_empty());
    assert_eq!(locked.source_idx(0).name, "toolkit");
    assert_eq!(locked.source_idx(1).name, "browser");
    assert_eq!(locked.get_source("browser").unwrap().name, "browser");
    assert!(locked.get_source("missing").is_none());
}

#[test]
fn duplicate_registration_error() {
    let mut reg = L10nRegistry::new();
    let res = reg.register_sources(vec![source("A"), source("A")]);
    match res {
        Err(RegistryError::DuplicateSource(name)) => assert_eq!(name, "A"),
        _ => panic!("expected DuplicateSource"),
    }
    // All-or-nothing: the registry is observably unchanged.
    assert_eq!(reg.lock().len(), 0);
}

#[test]
fn duplicate_against_registered_source() {
    let mut reg = L10nRegistry::new();
    reg.register_sources(vec![source("toolkit")]).unwrap();
    let res = reg.register_sources(vec![source("browser"), source("toolkit")]);
    match res {
        Err(RegistryError::DuplicateSource(name)) => assert_eq!(name, "toolkit"),
        _ => panic!("expected DuplicateSource"),
    }
    let locked = reg.lock();
    assert_eq!(locked.len(), 1);
    assert_eq!(locked.source_idx(0).name, "toolkit");
}

#[test]
fn candidates_keep_registration_order() {
    let mut reg = L10nRegistry::new();
    reg.register_sources(vec![source("a"), source("b"), source("c")]).unwrap();
    let locked = reg.lock();
    // b's oracle says no; a is unknown; c says yes.
    let verdicts = vec![None, Some(false), Some(true)];
    assert_eq!(locked.generate_sources_for_file(&verdicts), vec![0, 2]);
    let all = vec![None, None, None];
    assert_eq!(locked.generate_sources_for_file(&all), vec![0, 1, 2]);
}

#[test]
fn snapshot_iter_lists_sources_in_order() {
    let mut reg = L10nRegistry::new();
    reg.register_sources(vec![source("x"), source("y")]).unwrap();
    let locked = reg.lock();
    let names: Vec<&str> = locked.iter().iter().map(|s| s.name.as_str()).collect();
    assert_eq!(names, vec!["x", "y"]);
}

#[test]
fn permute_iter_descends_in_reverse_lexicographic_order() {
    assert_eq!(
        permute_iter(2, 2),
        vec![vec![1, 1], vec![1, 0], vec![0, 1], vec![0, 0]]
    );
    assert_eq!(permute_iter(3, 1), vec![vec![2], vec![1], vec![0]]);
    // A zero-length assignment list has exactly one (empty) assignment.
    assert_eq!(permute_iter(2, 0), vec![Vec::<usize>::new()]);
    // With no sources there is no assignment at all.
    assert_eq!(permute_iter(0, 2), Vec::<Vec<usize>>::new());
}
