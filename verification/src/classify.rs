//! Squatting classification: finding bit-flip candidates of target names
//! in the universe of known names, and deciding whether a match is
//! cyclical — the flipped package's latest manifest lists the original
//! name among its dependencies.

use vstd::prelude::*;
use crate::bitflip::{bitflips, copy_name, flip_exhaustive};

verus! {

/// Byte-for-byte equality of two names.
fn bytes_eq(a: &Vec<u8>, b: &Vec<u8>) -> (r: bool)
    ensures
        r == (a@ == b@),
{
    if a.len() != b.len() {
        return false;
    }
    let n = a.len();
    let mut j: usize = 0;
    while j < n
        invariant
            j <= n,
            n == a@.len(),
            n == b@.len(),
            forall|k: int| 0 <= k < j ==> a@[k] == b@[k],
        decreases n - j,
    {
        if a[j] != b[j] {
            return false;
        }
        j = j + 1;
    }
    proof {
        assert(a@ =~= b@);
    }
    true
}

/// The set of known package names, membership-testable.
pub struct PackageUniverse {
    pub names: Vec<Vec<u8>>,
}

impl PackageUniverse {
    /// The names the universe holds, as a set: insertion order and
    /// duplicates are irrelevant to membership.
    pub open spec fn spec_names(self) -> Set<Seq<u8>> {
        self.names@.map_values(|v: Vec<u8>| v@).to_set()
    }

    /// Builds the universe from a list of names.
    pub fn new(names: Vec<Vec<u8>>) -> (universe: Self)
        ensures
            universe.spec_names() == names@.map_values(|v: Vec<u8>| v@).to_set(),
    {
        PackageUniverse { names }
    }

    /// Membership test by linear scan.
    pub fn contains(&self, name: &Vec<u8>) -> (r: bool)
        ensures
            r == self.spec_names().contains(name@),
    {
        let ghost views = self.names@.map_values(|v: Vec<u8>| v@);
        let n = self.names.len();
        let mut j: usize = 0;
        while j < n
            invariant
                j <= n,
                n == self.names@.len(),
                views == self.names@.map_values(|v: Vec<u8>| v@),
                forall|k: int| 0 <= k < j ==> views[k] != name@,
            decreases n - j,
        {
            if bytes_eq(&self.names[j], name) {
                proof {
                    assert(views[j as int] == name@);
                    assert(views.contains(name@));
                }
                return true;
            }
            j = j + 1;
        }
        proof {
            assert(!views.contains(name@));
        }
        false
    }
}

/// A flipped name found in the universe, together with the target name it
/// was derived from.
pub struct Match {
    pub flipped: Vec<u8>,
    pub original: Vec<u8>,
}

impl Match {
    /// The pair of names a match stands for.
    pub open spec fn spec_pair(self) -> (Seq<u8>, Seq<u8>) {
        (self.flipped@, self.original@)
    }
}

/// The matches one target contributes: each candidate of `cands`, in
/// order, that the universe holds, paired with the target.
pub open spec fn hits(cands: Seq<Seq<u8>>, universe: Set<Seq<u8>>, target: Seq<u8>) -> Seq<
    (Seq<u8>, Seq<u8>),
>
    decreases cands.len(),
{
    if cands.len() == 0 {
        Seq::empty()
    } else {
        (if universe.contains(cands[0]) {
            seq![(cands[0], target)]
        } else {
            Seq::<(Seq<u8>, Seq<u8>)>::empty()
        }) + hits(cands.drop_first(), universe, target)
    }
}

/// The matches of all targets, targets in order, each target's candidates
/// in generation order.
pub open spec fn spec_matches(targets: Seq<Seq<u8>>, universe: Set<Seq<u8>>) -> Seq<
    (Seq<u8>, Seq<u8>),
>
    decreases targets.len(),
{
    if targets.len() == 0 {
        Seq::empty()
    } else {
        hits(bitflips(targets[0]), universe, targets[0]) + spec_matches(
            targets.drop_first(),
            universe,
        )
    }
}

/// The scan phase: for each target, every bit-flip candidate that the
/// universe holds, as a match of the candidate with its target.
pub fn find_matches(targets: &Vec<Vec<u8>>, universe: &PackageUniverse) -> (found: Vec<Match>)
    ensures
        found@.map_values(|m: Match| m.spec_pair()) == spec_matches(
            targets@.map_values(|v: Vec<u8>| v@),
            universe.spec_names(),
        ),
{
    let ghost tv = targets@.map_values(|v: Vec<u8>| v@);
    let ghost uni = universe.spec_names();
    let mut found: Vec<Match> = Vec::new();
    let mut ti: usize = 0;
    proof {
        assert(tv.skip(0) =~= tv);
        assert(found@.map_values(|m: Match| m.spec_pair()) =~= Seq::<(Seq<u8>, Seq<u8>)>::empty());
        assert(Seq::<(Seq<u8>, Seq<u8>)>::empty() + spec_matches(tv, uni) =~= spec_matches(
            tv,
            uni,
        ));
    }
    while ti < targets.len()
        invariant
            ti <= tv.len(),
            tv == targets@.map_values(|v: Vec<u8>| v@),
            uni == universe.spec_names(),
            found@.map_values(|m: Match| m.spec_pair()) + spec_matches(tv.skip(ti as int), uni)
                == spec_matches(tv, uni),
        decreases tv.len() - ti,
    {
        let target = &targets[ti];
        let cands = flip_exhaustive(target);
        let ghost cv = bitflips(target@);
        proof {
            assert(target@ == tv[ti as int]);
            assert(cv.skip(0) =~= cv);
            assert(tv.skip(ti as int)[0] == tv[ti as int]);
            assert(tv.skip(ti as int).drop_first() =~= tv.skip(ti as int + 1));
            assert(spec_matches(tv.skip(ti as int), uni) == hits(cv, uni, target@)
                + spec_matches(tv.skip(ti as int + 1), uni));
            assert(found@.map_values(|m: Match| m.spec_pair()) + (hits(cv, uni, target@)
                + spec_matches(tv.skip(ti as int + 1), uni)) =~= (found@.map_values(
                |m: Match| m.spec_pair(),
            ) + hits(cv, uni, target@)) + spec_matches(tv.skip(ti as int + 1), uni));
        }
        let mut cj: usize = 0;
        while cj < cands.len()
            invariant
                cj <= cv.len(),
                cv == cands@.map_values(|v: Vec<u8>| v@),
                cv == bitflips(targets@.map_values(|v: Vec<u8>| v@)[ti as int]),
                ti < tv.len(),
                tv == targets@.map_values(|v: Vec<u8>| v@),
                uni == universe.spec_names(),
                (found@.map_values(|m: Match| m.spec_pair()) + hits(
                    cv.skip(cj as int),
                    uni,
                    tv[ti as int],
                )) + spec_matches(tv.skip(ti as int + 1), uni) == spec_matches(tv, uni),
            decreases cv.len() - cj,
        {
            let ghost pre = found@.map_values(|m: Match| m.spec_pair());
            proof {
                assert(cv.skip(cj as int)[0] == cv[cj as int]);
                assert(cv.skip(cj as int).drop_first() =~= cv.skip(cj as int + 1));
            }
            if universe.contains(&cands[cj]) {
                let flipped_name = copy_name(&cands[cj]);
                let original_name = copy_name(&targets[ti]);
                found.push(
                    Match { flipped: flipped_name, original: original_name },
                );
                proof {
                    assert(found@.map_values(|m: Match| m.spec_pair()) =~= pre.push(
                        (cv[cj as int], tv[ti as int]),
                    ));
                    assert(hits(cv.skip(cj as int), uni, tv[ti as int]) == seq![
                        (cv[cj as int], tv[ti as int]),
                    ] + hits(cv.skip(cj as int + 1), uni, tv[ti as int]));
                    assert(pre.push((cv[cj as int], tv[ti as int])) + hits(
                        cv.skip(cj as int + 1),
                        uni,
                        tv[ti as int],
                    ) =~= pre + hits(cv.skip(cj as int), uni, tv[ti as int]));
                }
            } else {
                proof {
                    assert(hits(cv.skip(cj as int), uni, tv[ti as int]) =~= hits(
                        cv.skip(cj as int + 1),
                        uni,
                        tv[ti as int],
                    ));
                }
            }
            cj = cj + 1;
        }
        proof {
            assert(cv.skip(cv.len() as int) =~= Seq::<Seq<u8>>::empty());
            assert(hits(Seq::empty(), uni, tv[ti as int]) =~= Seq::<(Seq<u8>, Seq<u8>)>::empty());
            assert(found@.map_values(|m: Match| m.spec_pair()) + Seq::<
                (Seq<u8>, Seq<u8>),
            >::empty() =~= found@.map_values(|m: Match| m.spec_pair()));
        }
        ti = ti + 1;
    }
    proof {
        assert(tv.skip(tv.len() as int) =~= Seq::<Seq<u8>>::empty());
        assert(found@.map_values(|m: Match| m.spec_pair()) + Seq::<
            (Seq<u8>, Seq<u8>),
        >::empty() =~= found@.map_values(|m: Match| m.spec_pair()));
    }
    found
}

/// One version entry of a package manifest: the version string and the
/// names its dependency and development-dependency maps hold as keys.
pub struct VersionEntry {
    pub version: Vec<u8>,
    pub dependencies: Vec<Vec<u8>>,
    pub dev_dependencies: Vec<Vec<u8>>,
}

/// What the classifier reads of a package's registry metadata: the
/// `latest` distribution tag, if the metadata names one, and the version
/// entries. A lookup that failed or returned malformed data has no
/// metadata at all.
pub struct PackageMetadata {
    pub latest: Option<Vec<u8>>,
    pub versions: Vec<VersionEntry>,
}

/// `name` occurs in the list of names.
pub open spec fn name_listed(names: Seq<Vec<u8>>, name: Seq<u8>) -> bool {
    exists|k: int| 0 <= k < names.len() && #[trigger] names[k]@ == name
}

/// The first entry carrying `version`, if any.
pub open spec fn entry_for(versions: Seq<VersionEntry>, version: Seq<u8>) -> Option<VersionEntry>
    decreases versions.len(),
{
    if versions.len() == 0 {
        None
    } else if versions[0].version@ == version {
        Some(versions[0])
    } else {
        entry_for(versions.drop_first(), version)
    }
}

/// The classification rule: the metadata names a latest version, an entry
/// for that version is present, and the entry lists `original` among its
/// dependencies or development dependencies.
pub open spec fn spec_cyclical(meta: PackageMetadata, original: Seq<u8>) -> bool {
    match meta.latest {
        Option::None => false,
        Option::Some(tag) => match entry_for(meta.versions@, tag@) {
            Option::None => false,
            Option::Some(entry) => name_listed(entry.dependencies@, original) || name_listed(
                entry.dev_dependencies@,
                original,
            ),
        },
    }
}

/// `name` occurs in `names`, decided by linear scan.
fn list_contains(names: &Vec<Vec<u8>>, name: &Vec<u8>) -> (r: bool)
    ensures
        r == name_listed(names@, name@),
{
    let n = names.len();
    let mut j: usize = 0;
    while j < n
        invariant
            j <= n,
            n == names@.len(),
            forall|k: int| 0 <= k < j ==> names@[k]@ != name@,
        decreases n - j,
    {
        if bytes_eq(&names[j], name) {
            return true;
        }
        j = j + 1;
    }
    false
}

/// The classification phase for one match: whether the flipped package's
/// latest manifest lists `original`. Metadata that a lookup could not
/// produce, metadata without a latest tag, without an entry for that tag,
/// or without `original` among the entry's dependency names is never
/// cyclical.
#[verifier::loop_isolation(false)]
pub fn is_cyclical(metadata: &Option<PackageMetadata>, original: &Vec<u8>) -> (r: bool)
    ensures
        r == match *metadata {
            Option::None => false,
            Option::Some(m) => spec_cyclical(m, original@),
        },
{
    match metadata {
        Option::None => false,
        Option::Some(m) => {
            match &m.latest {
                Option::None => false,
                Option::Some(tag) => {
                    let ghost vs = m.versions@;
                    proof {
                        assert(vs.skip(0) =~= vs);
                    }
                    let n = m.versions.len();
                    let mut j: usize = 0;
                    while j < n
                        invariant
                            j <= n,
                            n == vs.len(),
                            vs == m.versions@,
                            entry_for(vs, tag@) == entry_for(vs.skip(j as int), tag@),
                        decreases n - j,
                    {
                        proof {
                            assert(vs.skip(j as int)[0] == vs[j as int]);
                            assert(vs.skip(j as int).drop_first() =~= vs.skip(j as int + 1));
                        }
                        if bytes_eq(&m.versions[j].version, tag) {
                            let entry = &m.versions[j];
                            proof {
                                assert(entry_for(vs, tag@) == Some(vs[j as int]));
                            }
                            if list_contains(&entry.dependencies, original) {
                                return true;
                            }
                            return list_contains(&entry.dev_dependencies, original);
                        }
                        j = j + 1;
                    }
                    proof {
                        assert(vs.skip(n as int) =~= Seq::<VersionEntry>::empty());
                    }
                    false
                },
            }
        },
    }
}

proof fn lemma_hits_member(
    cands: Seq<Seq<u8>>,
    universe: Set<Seq<u8>>,
    target: Seq<u8>,
    p: (Seq<u8>, Seq<u8>),
)
    requires
        hits(cands, universe, target).contains(p),
    ensures
        universe.contains(p.0),
        p.1 == target,
        cands.contains(p.0),
    decreases cands.len(),
{
    let whole = hits(cands, universe, target);
    let head = if universe.contains(cands[0]) {
        seq![(cands[0], target)]
    } else {
        Seq::<(Seq<u8>, Seq<u8>)>::empty()
    };
    let rest = hits(cands.drop_first(), universe, target);
    let k = choose|k: int| 0 <= k < whole.len() && whole[k] == p;
    if k < head.len() {
        assert(p == (cands[0], target));
        assert(cands.contains(cands[0]));
    } else {
        assert(rest[k - head.len()] == p);
        assert(rest.contains(p));
        lemma_hits_member(cands.drop_first(), universe, target, p);
        let k2 = choose|k2: int|
            0 <= k2 < cands.drop_first().len() && cands.drop_first()[k2] == p.0;
        assert(cands[k2 + 1] == p.0);
        assert(cands.contains(p.0));
    }
}

/// The scan phase reports no pair it should not: every reported pair
/// joins a candidate that the universe holds with the target, among the
/// targets scanned, whose bit flips produced the candidate.
pub proof fn lemma_matches_sound(
    targets: Seq<Seq<u8>>,
    universe: Set<Seq<u8>>,
    p: (Seq<u8>, Seq<u8>),
)
    requires
        spec_matches(targets, universe).contains(p),
    ensures
        universe.contains(p.0),
        targets.contains(p.1),
        bitflips(p.1).contains(p.0),
    decreases targets.len(),
{
    let whole = spec_matches(targets, universe);
    let head = hits(bitflips(targets[0]), universe, targets[0]);
    let rest = spec_matches(targets.drop_first(), universe);
    let k = choose|k: int| 0 <= k < whole.len() && whole[k] == p;
    if k < head.len() {
        assert(head.contains(p));
        lemma_hits_member(bitflips(targets[0]), universe, targets[0], p);
        assert(targets.contains(targets[0]));
    } else {
        assert(rest[k - head.len()] == p);
        assert(rest.contains(p));
        lemma_matches_sound(targets.drop_first(), universe, p);
        let k2 = choose|k2: int|
            0 <= k2 < targets.drop_first().len() && targets.drop_first()[k2] == p.1;
        assert(targets[k2 + 1] == p.1);
        assert(targets.contains(p.1));
    }
}

} // verus!
