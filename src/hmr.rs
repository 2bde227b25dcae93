use vstd::prelude::*;

use crate::emit::{bytes_eq, copy_bytes};

verus! {

/// How many hot-update identifiers one sampling run handles, counting from zero.
pub const HMR_SAMPLE_LIMIT: usize = 20;

/// Updates slower than this many milliseconds are reported.
pub const SLOW_UPDATE_MS: u128 = 10;

/// The version after one more update of a module graph at version `v`.
pub open spec fn next_version(v: u64) -> u64 {
    if v < u64::MAX {
        (v + 1) as u64
    } else {
        v
    }
}

/// The hot-update state of one session: for each identifier seen so far, the
/// version its updates have reached.
pub struct HmrSession {
    session: u64,
    states: Vec<(Vec<u8>, u64)>,
    versions: Ghost<Map<Seq<u8>, u64>>,
}

impl View for HmrSession {
    type V = Map<Seq<u8>, u64>;

    closed spec fn view(&self) -> Map<Seq<u8>, u64> {
        self.versions@
    }
}

impl HmrSession {
    pub closed spec fn spec_session(&self) -> u64 {
        self.session
    }

    /// Each identifier is held once, and the entries are exactly the versions.
    pub closed spec fn wf(&self) -> bool {
        &&& forall|i: int, j: int|
            0 <= i < self.states@.len() && 0 <= j < self.states@.len() && i != j
                ==> #[trigger] self.states@[i].0@ != #[trigger] self.states@[j].0@
        &&& forall|i: int|
            0 <= i < self.states@.len() ==> self.versions@.contains_key(#[trigger] self.states@[i].0@)
                && self.versions@[self.states@[i].0@] == self.states@[i].1
        &&& forall|k: Seq<u8>| #[trigger]
            self.versions@.contains_key(k) ==> exists|i: int|
                0 <= i < self.states@.len() && self.states@[i].0@ == k
    }

    /// A session with the given identity and no version state yet.
    pub fn new(session: u64) -> (r: HmrSession)
        ensures
            r.wf(),
            r@ == Map::<Seq<u8>, u64>::empty(),
            r.spec_session() == session,
    {
        HmrSession { session, states: Vec::new(), versions: Ghost(Map::empty()) }
    }

    /// The session's identity.
    pub fn session(&self) -> (r: u64)
        ensures
            r == self.spec_session(),
    {
        self.session
    }

    fn find(&self, ident: &Vec<u8>) -> (r: Option<usize>)
        requires
            self.wf(),
        ensures
            r is None ==> !self@.contains_key(ident@),
            r matches Some(i) ==> i < self.states@.len() && self.states@[i as int].0@ == ident@,
    {
        let mut i: usize = 0;
        while i < self.states.len()
            invariant
                self.wf(),
                i <= self.states@.len(),
                forall|j: int| 0 <= j < i ==> self.states@[j].0@ != ident@,
            decreases self.states.len() - i,
        {
            if bytes_eq(&self.states[i].0, ident) {
                return Some(i);
            }
            i = i + 1;
        }
        assert(!self@.contains_key(ident@)) by {
            if self.versions@.contains_key(ident@) {
                let j = choose|j: int| 0 <= j < self.states@.len() && self.states@[j].0@ == ident@;
            }
        }
        None
    }

    /// The position of `ident`'s entry, made at version zero where there was none.
    fn slot(&mut self, ident: &Vec<u8>) -> (i: usize)
        requires
            old(self).wf(),
        ensures
            final(self).wf(),
            final(self).session == old(self).session,
            i < final(self).states@.len(),
            final(self).states@[i as int].0@ == ident@,
            old(self)@.contains_key(ident@) ==> final(self)@ == old(self)@,
            !old(self)@.contains_key(ident@) ==> final(self)@ == old(self)@.insert(ident@, 0),
    {
        match self.find(ident) {
            Some(i) => i,
            None => {
                let ghost old_states = self.states@;
                self.states.push((copy_bytes(ident), 0));
                self.versions = Ghost(self.versions@.insert(ident@, 0));
                let n = self.states.len() - 1;
                proof {
                    assert(self.states@[n as int].0@ == ident@);
                    assert forall|j: int| 0 <= j < n implies self.states@[j] == old_states[j] by {}
                    assert forall|k: Seq<u8>| #[trigger] self.versions@.contains_key(k) implies exists|j: int|
                        0 <= j < self.states@.len() && self.states@[j].0@ == k by {
                        if k == ident@ {
                            assert(self.states@[n as int].0@ == k);
                        } else {
                            let j = choose|j: int| 0 <= j < old_states.len() && old_states[j].0@ == k;
                            assert(self.states@[j].0@ == k);
                        }
                    }
                }
                n
            },
        }
    }

    /// The version state of `ident` in this session, created at version zero
    /// on first access.
    pub fn version_state(&mut self, ident: &Vec<u8>) -> (v: u64)
        requires
            old(self).wf(),
        ensures
            final(self).wf(),
            final(self).spec_session() == old(self).spec_session(),
            final(self)@.contains_key(ident@),
            final(self)@[ident@] == v,
            old(self)@.contains_key(ident@) ==> v == old(self)@[ident@] && final(self)@ == old(self)@,
            !old(self)@.contains_key(ident@) ==> v == 0 && final(self)@ == old(self)@.insert(ident@, 0),
    {
        let i = self.slot(ident);
        self.states[i].1
    }

    /// Records that an update of `ident` was computed: its version moves on by
    /// one, from zero where it had none. Returns the new version.
    pub fn record_update(&mut self, ident: &Vec<u8>) -> (v: u64)
        requires
            old(self).wf(),
        ensures
            final(self).wf(),
            final(self).spec_session() == old(self).spec_session(),
            v == next_version(if old(self)@.contains_key(ident@) { old(self)@[ident@] } else { 0 }),
            final(self)@ == old(self)@.insert(ident@, v),
    {
        let i = self.slot(ident);
        let cur = self.states[i].1;
        let v = if cur < u64::MAX {
            cur + 1
        } else {
            cur
        };
        let ghost old_states = self.states@;
        let ghost mid = self@;
        self.states.set(i, (copy_bytes(ident), v));
        self.versions = Ghost(self.versions@.insert(ident@, v));
        proof {
            assert forall|j: int| 0 <= j < self.states@.len() && j != i implies self.states@[j]
                == old_states[j] by {}
            assert forall|k: Seq<u8>| #[trigger] self.versions@.contains_key(k) implies exists|j: int|
                0 <= j < self.states@.len() && self.states@[j].0@ == k by {
                if k == ident@ {
                    assert(self.states@[i as int].0@ == k);
                } else {
                    let j = choose|j: int| 0 <= j < old_states.len() && old_states[j].0@ == k;
                    assert(self.states@[j].0@ == k);
                }
            }
            assert(mid.insert(ident@, v) =~= old(self)@.insert(ident@, v));
        }
        v
    }
}

/// Whether a sampling run that has handled `handled` identifiers goes on.
pub fn hmr_keep_sampling(handled: usize) -> (r: bool)
    ensures
        r == (handled <= HMR_SAMPLE_LIMIT),
{
    handled <= HMR_SAMPLE_LIMIT
}

/// Whether an update that took `elapsed_ms` milliseconds is reported as slow.
pub fn is_slow_update(elapsed_ms: u128) -> (r: bool)
    ensures
        r == (elapsed_ms > SLOW_UPDATE_MS),
{
    elapsed_ms > SLOW_UPDATE_MS
}

} // verus!
