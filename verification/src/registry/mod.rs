//! The localization resource registry: an ordered collection of named file
//! sources plus a list of locales, lending read-only snapshots to solvers.
//!
//! A file source is identified by its unique name; its oracle and fetchers
//! live with outside collaborators. Registration is all-or-nothing: a batch
//! with a name already present, or repeated within the batch, is rejected
//! whole and the registry is left unchanged. A snapshot freezes the set and
//! order of sources; indices `0..len` are stable for its lifetime.

use vstd::prelude::*;

use crate::solver::lex_lt;

use itertools::Itertools;

verus! {

/// A registered file source, identified by its unique name. Equality of
/// sources is equality of names.
#[derive(Clone)]
pub struct FileSource {
    pub name: String,
}

impl FileSource {
    pub fn new(name: String) -> (s: FileSource)
        ensures
            s.name == name,
    {
        FileSource { name }
    }
}

/// The names such a sequence of sources carries, in order.
pub open spec fn names_of(ss: Seq<FileSource>) -> Seq<Seq<char>> {
    ss.map(|i: int, s: FileSource| s.name@)
}

/// Why a registration was rejected.
#[derive(Debug)]
pub enum RegistryError {
    DuplicateSource(String),
}

#[verifier::external_type_specification]
#[verifier::external_body]
#[verifier::reject_recursive_types(T)]
pub struct ExChunkyVec<T>(chunky_vec::ChunkyVec<T>);

/// The names of the sources the registry's append-only container holds, in
/// insertion order.
pub uninterp spec fn chunky_names(v: &chunky_vec::ChunkyVec<FileSource>) -> Seq<Seq<char>>;

/// Relies on chunky_vec::ChunkyVec's Default: an empty container.
#[verifier::external_body]
fn sources_new() -> (v: chunky_vec::ChunkyVec<FileSource>)
    ensures
        chunky_names(&v) == Seq::<Seq<char>>::empty(),
{
    chunky_vec::ChunkyVec::default()
}

/// Relies on chunky_vec::ChunkyVec::push: appends one element at the end,
/// leaving the others in place.
#[verifier::external_body]
fn sources_push(v: &mut chunky_vec::ChunkyVec<FileSource>, source: FileSource)
    ensures
        chunky_names(final(v)) == chunky_names(old(v)).push(source.name@),
{
    v.push(source)
}

/// Relies on chunky_vec::ChunkyVec::len: the number of elements held.
#[verifier::external_body]
fn sources_len(v: &chunky_vec::ChunkyVec<FileSource>) -> (n: usize)
    ensures
        n == chunky_names(v).len(),
{
    v.len()
}

/// Relies on chunky_vec::ChunkyVec::get: the element at the index, counting
/// in insertion order; in range it is always there.
#[verifier::external_body]
fn sources_get(v: &chunky_vec::ChunkyVec<FileSource>, index: usize) -> (s: FileSource)
    requires
        index < chunky_names(v).len(),
    ensures
        s.name@ == chunky_names(v)[index as int],
{
    v.get(index).unwrap().clone()
}

/// Relies on str's PartialEq: equality of the character sequences.
#[verifier::external_body]
fn str_eq(a: &str, b: &str) -> (r: bool)
    ensures
        r == (a@ == b@),
{
    a == b
}

/// The name at `k` collides with an earlier name: one already registered,
/// or an earlier one of the same batch.
pub open spec fn collides_at(existing: Seq<Seq<char>>, incoming: Seq<Seq<char>>, k: int) -> bool {
    existing.contains(incoming[k]) || exists|l: int| 0 <= l < k && incoming[l] == incoming[k]
}

/// The registry: the ordered sources and the prioritized locale list.
pub struct L10nRegistry {
    pub lang_ids: Vec<String>,
    pub sources: chunky_vec::ChunkyVec<FileSource>,
}

impl L10nRegistry {
    /// The registered names, in insertion order.
    pub open spec fn names(self) -> Seq<Seq<char>> {
        chunky_names(&self.sources)
    }

    /// Registered names are pairwise distinct.
    pub open spec fn inv(self) -> bool {
        forall|i: int, j: int| 0 <= i < j < self.names().len() ==> self.names()[i]
            != self.names()[j]
    }

    pub fn new() -> (reg: L10nRegistry)
        ensures
            reg.names().len() == 0,
            reg.lang_ids@.len() == 0,
            reg.inv(),
    {
        L10nRegistry { lang_ids: Vec::new(), sources: sources_new() }
    }

    /// Replace the locale list.
    pub fn set_lang_ids(&mut self, lang_ids: Vec<String>)
        ensures
            final(self).lang_ids == lang_ids,
            final(self).sources == old(self).sources,
    {
        self.lang_ids = lang_ids;
    }

    /// Append the given sources, in order, unless some name is already
    /// registered or repeated within the batch: then nothing is appended
    /// and the first offending name comes back in the error.
    pub fn register_sources(&mut self, new_sources: Vec<FileSource>) -> (res: Result<
        (),
        RegistryError,
    >)
        requires
            old(self).inv(),
        ensures
            final(self).lang_ids == old(self).lang_ids,
            final(self).inv(),
            (res is Ok) == (forall|k: int|
                0 <= k < new_sources@.len() ==> !collides_at(
                    old(self).names(),
                    names_of(new_sources@),
                    k,
                )),
            res is Ok ==> final(self).names() == old(self).names() + names_of(new_sources@),
            res matches Err(e) ==> final(self).names() == old(self).names() && (e matches
                RegistryError::DuplicateSource(n) && exists|k: int|
                0 <= k < new_sources@.len() && n@ == names_of(new_sources@)[k] && collides_at(
                    old(self).names(),
                    names_of(new_sources@),
                    k,
                ) && (forall|j: int|
                    0 <= j < k ==> !collides_at(old(self).names(), names_of(new_sources@), j))),
    {
        let ghost incoming = names_of(new_sources@);
        let mut i: usize = 0;
        while i < new_sources.len()
            invariant
                self == old(self),
                self.inv(),
                incoming == names_of(new_sources@),
                i <= new_sources@.len(),
                forall|k: int| 0 <= k < i ==> !collides_at(old(self).names(), incoming, k),
            decreases new_sources@.len() - i,
        {
            let candidate = &new_sources[i];
            let n = sources_len(&self.sources);
            let mut j: usize = 0;
            while j < n
                invariant
                    self == old(self),
                    self.inv(),
                    n == self.names().len(),
                    i < new_sources@.len(),
                    incoming == names_of(new_sources@),
                    candidate == new_sources@[i as int],
                    j <= n,
                    forall|t: int| 0 <= t < j ==> old(self).names()[t] != candidate.name@,
                    forall|k: int| 0 <= k < i ==> !collides_at(old(self).names(), incoming, k),
                decreases n - j,
            {
                let existing = sources_get(&self.sources, j);
                if existing.name == candidate.name {
                    proof {
                        assert(old(self).names().contains(incoming[i as int]));
                        assert(collides_at(old(self).names(), incoming, i as int));
                    }
                    return Result::Err(RegistryError::DuplicateSource(candidate.name.clone()));
                }
                j += 1;
            }
            let mut l: usize = 0;
            while l < i
                invariant
                    self == old(self),
                    self.inv(),
                    i < new_sources@.len(),
                    incoming == names_of(new_sources@),
                    candidate == new_sources@[i as int],
                    l <= i,
                    forall|t: int| 0 <= t < l ==> incoming[t] != candidate.name@,
                    forall|t: int| 0 <= t < self.names().len() ==> self.names()[t]
                        != candidate.name@,
                    forall|k: int| 0 <= k < i ==> !collides_at(old(self).names(), incoming, k),
                decreases i - l,
            {
                let earlier = &new_sources[l];
                if earlier.name == candidate.name {
                    proof {
                        assert(incoming[l as int] == incoming[i as int]);
                        assert(collides_at(old(self).names(), incoming, i as int));
                    }
                    return Result::Err(RegistryError::DuplicateSource(candidate.name.clone()));
                }
                l += 1;
            }
            proof {
                assert(!collides_at(old(self).names(), incoming, i as int)) by {
                    if old(self).names().contains(incoming[i as int]) {
                        let t = choose|t: int|
                            0 <= t < old(self).names().len() && old(self).names()[t] == incoming[
                            i as int];
                        assert(old(self).names()[t] != candidate.name@);
                    }
                }
            }
            i += 1;
        }
        let mut p: usize = 0;
        while p < new_sources.len()
            invariant
                p <= new_sources@.len(),
                self.lang_ids == old(self).lang_ids,
                incoming == names_of(new_sources@),
                forall|k: int| 0 <= k < new_sources@.len() ==> !collides_at(
                    old(self).names(),
                    incoming,
                    k,
                ),
                old(self).inv(),
                self.names() == old(self).names() + incoming.subrange(0, p as int),
            decreases new_sources@.len() - p,
        {
            let entry = &new_sources[p];
            sources_push(&mut self.sources, FileSource { name: entry.name.clone() });
            proof {
                assert(self.names() =~= old(self).names() + incoming.subrange(0, p + 1));
            }
            p += 1;
        }
        proof {
            assert(incoming.subrange(0, incoming.len() as int) =~= incoming);
            assert(self.names() =~= old(self).names() + incoming);
            let all = self.names();
            let base = old(self).names();
            assert forall|a: int, b: int| 0 <= a < b < all.len() implies all[a] != all[b] by {
                if b < base.len() {
                } else if a < base.len() {
                    assert(!collides_at(base, incoming, b - base.len()));
                    if all[a] == all[b] {
                        assert(base[a] == incoming[b - base.len()]);
                        assert(base.contains(incoming[b - base.len()]));
                    }
                } else {
                    assert(!collides_at(base, incoming, b - base.len()));
                    if all[a] == all[b] {
                        assert(incoming[a - base.len()] == incoming[b - base.len()]);
                    }
                }
            }
        }
        Result::Ok(())
    }

    /// A read-only snapshot of the sources, with stable indices.
    pub fn lock(&self) -> (locked: L10nRegistryLocked)
        ensures
            names_of(locked.entries@) == self.names(),
    {
        let mut entries: Vec<FileSource> = Vec::new();
        let n = sources_len(&self.sources);
        let mut i: usize = 0;
        while i < n
            invariant
                i <= n,
                n == self.names().len(),
                entries@.len() == i,
                forall|k: int| 0 <= k < i ==> (#[trigger] entries@[k]).name@ == self.names()[k],
            decreases n - i,
        {
            let s = sources_get(&self.sources, i);
            entries.push(s);
            i += 1;
        }
        proof {
            assert(names_of(entries@) =~= self.names());
        }
        L10nRegistryLocked { entries }
    }
}

/// A frozen view of the registry's sources at the moment of the lock.
pub struct L10nRegistryLocked {
    pub entries: Vec<FileSource>,
}

impl L10nRegistryLocked {
    pub fn len(&self) -> (n: usize)
        ensures
            n == self.entries@.len(),
    {
        self.entries.len()
    }

    pub fn is_empty(&self) -> (b: bool)
        ensures
            b == (self.entries@.len() == 0),
    {
        self.entries.len() == 0
    }

    /// The sources of the snapshot, in registration order.
    pub fn iter(&self) -> (r: &Vec<FileSource>)
        ensures
            r == &self.entries,
    {
        &self.entries
    }

    /// The source at the index; the index must be in range.
    pub fn source_idx(&self, index: usize) -> (s: &FileSource)
        requires
            index < self.entries@.len(),
        ensures
            s == self.entries@[index as int],
    {
        &self.entries[index]
    }

    /// The first source of the given name, if one is registered.
    pub fn get_source(&self, name: &str) -> (found: Option<&FileSource>)
        ensures
            match found {
                Some(s) => exists|i: int|
                    0 <= i < self.entries@.len() && s == self.entries@[i] && s.name@ == name@ && (
                    forall|j: int| 0 <= j < i ==> self.entries@[j].name@ != name@),
                None => forall|i: int|
                    0 <= i < self.entries@.len() ==> (#[trigger] self.entries@[i]).name@ != name@,
            },
    {
        let mut i: usize = 0;
        while i < self.entries.len()
            invariant
                i <= self.entries@.len(),
                forall|j: int| 0 <= j < i ==> (#[trigger] self.entries@[j]).name@ != name@,
            decreases self.entries@.len() - i,
        {
            if str_eq(self.entries[i].name.as_str(), name) {
                return Option::Some(&self.entries[i]);
            }
            i += 1;
        }
        Option::None
    }

    /// The indices of the sources that may contain the file, given each
    /// source's oracle verdict for it (`Some(false)` meaning certainly
    /// not): all but the certainly-absent ones, in registration order.
    pub fn generate_sources_for_file(&self, verdicts: &Vec<Option<bool>>) -> (kept: Vec<usize>)
        requires
            verdicts@.len() == self.entries@.len(),
        ensures
            forall|a: int, b: int| 0 <= a < b < kept@.len() ==> kept@[a] < kept@[b],
            forall|a: int|
                0 <= a < kept@.len() ==> (#[trigger] kept@[a]) < self.entries@.len()
                    && verdicts@[kept@[a] as int] != Some(false),
            forall|q: int|
                0 <= q < verdicts@.len() && (#[trigger] verdicts@[q]) != Some(false)
                    ==> kept@.contains(q as usize),
    {
        let mut kept: Vec<usize> = Vec::new();
        let mut i: usize = 0;
        while i < verdicts.len()
            invariant
                i <= verdicts@.len(),
                verdicts@.len() == self.entries@.len(),
                forall|a: int, b: int| 0 <= a < b < kept@.len() ==> kept@[a] < kept@[b],
                forall|a: int|
                    0 <= a < kept@.len() ==> (#[trigger] kept@[a]) < i && verdicts@[kept@[a] as int]
                        != Some(false),
                forall|q: int|
                    0 <= q < i && (#[trigger] verdicts@[q]) != Some(false) ==> kept@.contains(
                        q as usize,
                    ),
            decreases verdicts@.len() - i,
        {
            let keep: bool = match verdicts[i] {
                Option::Some(false) => false,
                _ => true,
            };
            if keep {
                let ghost old_kept = kept@;
                kept.push(i);
                proof {
                    assert forall|q: int|
                        0 <= q < i + 1 && (#[trigger] verdicts@[q]) != Some(
                            false,
                        ) implies kept@.contains(q as usize) by {
                        if q < i {
                            let k = choose|k: int|
                                0 <= k < old_kept.len() && old_kept[k] == q as usize;
                            assert(kept@[k] == q as usize);
                        } else {
                            assert(kept@[kept@.len() - 1] == q as usize);
                        }
                    }
                }
            }
            i += 1;
        }
        kept
    }
}

/// Every assignment of one source index to each of `length` resource
/// slots, in the order the solver enumerates them: last-registered source
/// first, rightmost slot varying fastest — that is, strictly descending in
/// the reverse lexicographic order.
///
/// Relies on itertools' multi_cartesian_product: the cartesian product of
/// the given iterators with the rightmost advancing fastest, one empty
/// assignment when `length` is zero, and nothing when some iterator is
/// empty.
#[verifier::external_body]
pub fn permute_iter(source_count: usize, length: usize) -> (r: Vec<Vec<usize>>)
    requires
        vstd::arithmetic::power::pow(source_count as int, length as nat) <= usize::MAX,
    ensures
        r@.len() == vstd::arithmetic::power::pow(source_count as int, length as nat),
        forall|k: int|
            0 <= k < r@.len() ==> (#[trigger] r@[k])@.len() == length && (forall|t: int|
                0 <= t < length ==> (#[trigger] r@[k]@[t]) < source_count),
        forall|k: int| 0 <= k && k + 1 < r@.len() ==> lex_lt(#[trigger] r@[k + 1]@, r@[k]@),
{
    (0..length).map(|_| (0..source_count).rev()).multi_cartesian_product().collect()
}

} // verus!
