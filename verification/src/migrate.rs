//! The storage migrator's decisions. When the storage root changes, the
//! history file moves only if the new root has none, and each blob moves
//! only if its name is still missing there; nothing in the old root is ever
//! deleted. The application performs the copies this plan names.

use vstd::prelude::*;

verus! {

/// `name` is among the stored names.
pub open spec fn spec_has_name(names: Seq<Seq<char>>, name: Seq<char>) -> bool {
    exists|i: int| 0 <= i < names.len() && #[trigger] names[i] == name
}

/// The names in `old`, in order, that are missing from `new`. Blobs are
/// content-addressed, so a name already present means identical content and
/// is safely skipped.
pub open spec fn spec_missing_names(old: Seq<Seq<char>>, new: Seq<Seq<char>>) -> Seq<Seq<char>>
    decreases old.len(),
{
    if old.len() == 0 {
        Seq::empty()
    } else {
        (if spec_has_name(new, old[0]) {
            Seq::empty()
        } else {
            seq![old[0]]
        }) + spec_missing_names(old.drop_first(), new)
    }
}

/// What a root change requires of the application.
pub struct MigrationPlan {
    /// Copy the history file: only when the new root has none yet.
    pub copy_history: bool,
    /// The blob files to copy: those the new root is missing.
    pub blobs_to_copy: Vec<String>,
}

fn has_name(names: &Vec<String>, name: &String) -> (r: bool)
    ensures
        r == spec_has_name(names.deep_view(), name@),
{
    let mut k: usize = 0;
    while k < names.len()
        invariant
            k <= names@.len(),
            forall|i: int| 0 <= i < k ==> #[trigger] names.deep_view()[i] != name@,
        decreases names@.len() - k,
    {
        proof {
            assert(names.deep_view()[k as int] == names@[k as int]@);
        }
        if names[k].eq(name) {
            proof {
                assert(names.deep_view()[k as int] == name@);
            }
            return true;
        }
        k = k + 1;
    }
    false
}

/// Plans a storage-root change: nothing when the roots are equal; otherwise
/// the history file moves only into an empty place and exactly the missing
/// blobs are copied, in their original order. The old root keeps
/// everything.
pub fn migration_plan(
    roots_equal: bool,
    new_has_history: bool,
    old_blobs: &Vec<String>,
    new_blobs: &Vec<String>,
) -> (r: Option<MigrationPlan>)
    ensures
        roots_equal ==> r is None,
        !roots_equal ==> (r matches Some(p) && p.copy_history == !new_has_history
            && p.blobs_to_copy.deep_view() == spec_missing_names(
            old_blobs.deep_view(),
            new_blobs.deep_view(),
        )),
{
    if roots_equal {
        return None;
    }
    let ghost oldm = old_blobs.deep_view();
    let ghost newm = new_blobs.deep_view();
    let mut to_copy: Vec<String> = Vec::new();
    let ghost mut outm: Seq<Seq<char>> = Seq::empty();
    let mut k: usize = 0;
    proof {
        assert(oldm.skip(0) =~= oldm);
        assert(outm =~= to_copy.deep_view());
        assert(spec_missing_names(oldm, newm) =~= outm + spec_missing_names(oldm, newm));
    }
    while k < old_blobs.len()
        invariant
            k <= old_blobs@.len(),
            oldm == old_blobs.deep_view(),
            newm == new_blobs.deep_view(),
            oldm.len() == old_blobs@.len(),
            outm == to_copy.deep_view(),
            spec_missing_names(oldm, newm) == outm + spec_missing_names(oldm.skip(k as int), newm),
        decreases old_blobs@.len() - k,
    {
        let ghost rest = oldm.skip(k as int);
        proof {
            assert(rest[0] == oldm[k as int]);
            assert(rest.drop_first() =~= oldm.skip(k as int + 1));
            assert(oldm[k as int] == old_blobs@[k as int]@);
        }
        let name = old_blobs[k].clone();
        if !has_name(new_blobs, &name) {
            to_copy.push(name);
            proof {
                outm = outm.push(oldm[k as int]);
                assert(outm =~= to_copy.deep_view());
            }
        }
        proof {
            assert(spec_missing_names(oldm, newm) =~= outm + spec_missing_names(
                oldm.skip(k as int + 1),
                newm,
            ));
        }
        k = k + 1;
    }
    proof {
        assert(oldm.skip(oldm.len() as int) =~= Seq::<Seq<char>>::empty());
        assert(spec_missing_names(oldm, newm) =~= outm);
    }
    Some(MigrationPlan { copy_history: !new_has_history, blobs_to_copy: to_copy })
}

} // verus!
