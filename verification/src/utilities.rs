//! Process-local helpers: random identifiers, wall-clock time, and the
//! registry of known peers.

use vstd::prelude::*;
use crate::profile::Profile;

verus! {

/// Relies on `rand::random::<u32>`: a fresh 32-bit value drawn from the
/// thread-local generator.  Nothing is promised of the value.
#[verifier::external_body]
pub fn gen_rand_id() -> u32 {
    rand::random()
}

/// Relies on `std::time::SystemTime::now` and
/// `SystemTime::duration_since(UNIX_EPOCH)`: whole seconds since the Unix
/// epoch, or 0 for a clock that sits before it.  Nothing is promised of the
/// value.
#[verifier::external_body]
pub fn get_curr_time() -> u64 {
    match std::time::SystemTime::now().duration_since(std::time::UNIX_EPOCH) {
        Ok(n) => n.as_secs(),
        Err(_) => 0,
    }
}

/// The map a record of profiles spells, with later entries overwriting
/// earlier ones under the same identifier.
pub open spec fn profile_map(s: Seq<Profile>) -> Map<u32, Profile>
    decreases s.len(),
{
    if s.len() == 0 {
        Map::empty()
    } else {
        profile_map(s.drop_last()).insert(s.last().uid, s.last())
    }
}

/// The registry of peers this host has learned about, keyed by their stable
/// identifier.  Entries are upserted when a greeting arrives and are never
/// evicted by the engine itself.
pub struct KnownUsers {
    profiles: Vec<Profile>,
}

impl View for KnownUsers {
    type V = Map<u32, Profile>;

    closed spec fn view(&self) -> Map<u32, Profile> {
        profile_map(self.profiles@)
    }
}

impl KnownUsers {
    /// An empty registry.
    pub fn new() -> (r: KnownUsers)
        ensures
            r@ == Map::<u32, Profile>::empty(),
    {
        KnownUsers { profiles: Vec::new() }
    }

    /// Upserts the given profile under its identifier.
    pub fn add_user(&mut self, prof: Profile)
        ensures
            final(self)@ == old(self)@.insert(prof.uid, prof),
    {
        let ghost pre = self.profiles@;
        self.profiles.push(prof);
        proof {
            assert(self.profiles@.drop_last() =~= pre);
        }
    }

    /// Whether a profile is on record for this identifier.
    pub fn does_user_exist(&self, uid: u32) -> (r: bool)
        ensures
            r == self@.contains_key(uid),
    {
        self.get_user(uid).is_some()
    }

    /// The profile on record for this identifier, if any: the last one
    /// upserted under it.
    pub fn get_user(&self, uid: u32) -> (r: Option<&Profile>)
        ensures
            r matches Some(p) ==> self@.contains_key(uid) && *p == self@[uid],
            r is None ==> !self@.contains_key(uid),
    {
        let mut found: Option<usize> = None;
        let mut i: usize = 0;
        while i < self.profiles.len()
            invariant
                i <= self.profiles@.len(),
                found matches Some(idx) ==> idx < i && profile_map(
                    self.profiles@.take(i as int),
                ).contains_key(uid) && profile_map(self.profiles@.take(i as int))[uid]
                    == self.profiles@[idx as int],
                found is None ==> !profile_map(self.profiles@.take(i as int)).contains_key(uid),
            decreases self.profiles@.len() - i,
        {
            proof {
                assert(self.profiles@.take(i + 1 as int).drop_last() =~= self.profiles@.take(
                    i as int,
                ));
            }
            if self.profiles[i].uid == uid {
                found = Some(i);
            }
            i += 1;
        }
        proof {
            assert(self.profiles@.take(self.profiles@.len() as int) =~= self.profiles@);
        }
        match found {
            Some(idx) => Some(&self.profiles[idx]),
            None => None,
        }
    }

    /// Removes and returns the profile recorded under this identifier, if
    /// any.
    pub fn remove_user(&mut self, uid: u32) -> (r: Option<Profile>)
        ensures
            final(self)@ == old(self)@.remove(uid),
            r matches Some(p) ==> old(self)@.contains_key(uid) && p == old(self)@[uid],
            r is None ==> !old(self)@.contains_key(uid),
    {
        let ghost orig = self.profiles@;
        let mut work: Vec<Profile> = Vec::new();
        core::mem::swap(&mut work, &mut self.profiles);
        let total = work.len();
        let mut removed: Option<Profile> = None;
        let mut kept: Vec<Profile> = Vec::new();
        let mut i: usize = 0;
        while i < total
            invariant
                total == orig.len(),
                i + work@.len() == orig.len(),
                work@ == orig.skip(i as int),
                profile_map(kept@) =~= profile_map(orig.take(i as int)).remove(uid),
                removed matches Some(p) ==> profile_map(orig.take(i as int)).contains_key(uid)
                    && profile_map(orig.take(i as int))[uid] == p,
                removed is None ==> !profile_map(orig.take(i as int)).contains_key(uid),
            decreases total - i,
        {
            let ghost pre_kept = kept@;
            let ghost pre_work = work@;
            let p = work.remove(0);
            proof {
                assert(pre_work.remove(0) =~= pre_work.drop_first());
                assert(work@ =~= orig.skip(i + 1 as int));
                assert(pre_work[0] == orig[i as int]);
                assert(orig.take(i + 1 as int).drop_last() =~= orig.take(i as int));
            }
            if p.uid == uid {
                removed = Some(p);
            } else {
                kept.push(p);
                proof {
                    assert(kept@.drop_last() =~= pre_kept);
                }
            }
            proof {
                assert(profile_map(kept@) =~= profile_map(orig.take(i + 1 as int)).remove(uid));
            }
            i += 1;
        }
        proof {
            assert(orig.take(orig.len() as int) =~= orig);
        }
        self.profiles = kept;
        removed
    }

    /// Every profile on record, one per known identifier, in no particular
    /// order.
    pub fn all_users(&self) -> (r: Vec<Profile>)
        ensures
            forall|i: int|
                0 <= i < r@.len() ==> self@.contains_key(#[trigger] r@[i].uid) && r@[i]@
                    == self@[r@[i].uid]@,
            forall|u: u32|
                #[trigger] self@.contains_key(u) ==> exists|i: int|
                    0 <= i < r@.len() && r@[i].uid == u,
            forall|i: int, j: int| 0 <= i < j < r@.len() ==> r@[i].uid != r@[j].uid,
    {
        let mut out: Vec<Profile> = Vec::new();
        let mut i: usize = 0;
        while i < self.profiles.len()
            invariant
                i <= self.profiles@.len(),
                forall|k: int|
                    0 <= k < out@.len() ==> profile_map(self.profiles@.take(i as int)).contains_key(
                        #[trigger] out@[k].uid,
                    ) && out@[k]@ == profile_map(self.profiles@.take(i as int))[out@[k].uid]@,
                forall|u: u32|
                    #[trigger] profile_map(self.profiles@.take(i as int)).contains_key(u)
                        ==> exists|k: int| 0 <= k < out@.len() && out@[k].uid == u,
                forall|k: int, k2: int| 0 <= k < k2 < out@.len() ==> out@[k].uid != out@[k2].uid,
            decreases self.profiles@.len() - i,
        {
            proof {
                assert(self.profiles@.take(i + 1 as int).drop_last() =~= self.profiles@.take(
                    i as int,
                ));
            }
            let cur = self.profiles[i].clone();
            let ghost curval = cur;
            let mut at: Option<usize> = None;
            let mut k: usize = 0;
            while k < out.len()
                invariant
                    k <= out@.len(),
                    at matches Some(idx) ==> idx < out@.len() && out@[idx as int].uid == cur.uid,
                    at is None ==> forall|k2: int|
                        0 <= k2 < k ==> #[trigger] out@[k2].uid != cur.uid,
                decreases out@.len() - k,
            {
                if out[k].uid == cur.uid {
                    at = Some(k);
                }
                k += 1;
            }
            let ghost pre_out = out@;
            match at {
                Some(idx) => {
                    out.set(idx, cur);
                }
                None => {
                    out.push(cur);
                }
            }
            proof {
                let wdx: int = match at {
                    Some(idx) => idx as int,
                    None => out@.len() - 1,
                };
                assert(out@[wdx] == curval);
                assert(self.profiles@.take(i + 1 as int).last() == self.profiles@[i as int]);
                assert(curval.uid == self.profiles@[i as int].uid);
                assert forall|u: u32|
                    #[trigger] profile_map(self.profiles@.take(i + 1 as int)).contains_key(u)
                    implies exists|k2: int| 0 <= k2 < out@.len() && out@[k2].uid == u by {
                    if u == curval.uid {
                        assert(out@[wdx].uid == u);
                    } else {
                        assert(profile_map(self.profiles@.take(i as int)).contains_key(u));
                        let k0 = choose|k0: int| 0 <= k0 < pre_out.len() && pre_out[k0].uid == u;
                        assert(pre_out[k0].uid != curval.uid);
                        assert(out@[k0] == pre_out[k0]);
                        assert(out@[k0].uid == u);
                    }
                }
            }
            i += 1;
        }
        proof {
            assert(self.profiles@.take(self.profiles@.len() as int) =~= self.profiles@);
        }
        out
    }
}

} // verus!
