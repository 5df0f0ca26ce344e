//! The name-binding pass.
//!
//! Before evaluation, every identifier is assigned a globally-unique
//! binding id; scopes form a stack of frames, an inner binding shadows an
//! outer one, and a lookup scans frames from the innermost outwards.
use vstd::prelude::*;

verus! {

/// Assigns binding ids to names, scope frame by scope frame.
pub struct VarIdPass {
    next_id: u64,
    bindings: Vec<Vec<(String, u64)>>,
}

/// Some frame holds an entry for `name` with id `id`.
pub open spec fn bound_to(frames: Seq<Seq<(String, u64)>>, name: Seq<char>, id: u64) -> bool {
    exists|i: int, j: int|
        0 <= i < frames.len() && 0 <= j < frames[i].len() && (#[trigger] frames[i][j]).0@ == name
            && frames[i][j].1 == id
}

impl VarIdPass {
    pub closed spec fn frames(self) -> Seq<Seq<(String, u64)>> {
        self.bindings@.map_values(|f: Vec<(String, u64)>| f@)
    }

    pub closed spec fn next(self) -> u64 {
        self.next_id
    }

    pub closed spec fn wf(self) -> bool {
        self.bindings@.len() >= 1
    }

    /// A fresh pass with one frame for the global namespace; ids start
    /// at one.
    pub fn new() -> (r: VarIdPass)
        ensures
            r.wf(),
            r.frames().len() == 1,
            r.frames()[0].len() == 0,
            r.next() == 1,
    {
        let mut bindings: Vec<Vec<(String, u64)>> = Vec::new();
        bindings.push(Vec::new());
        let r = VarIdPass { next_id: 1, bindings };
        proof {
            assert(r.frames() =~= seq![Seq::<(String, u64)>::empty()]);
        }
        r
    }

    /// The id bound to `name` in the innermost frame that declares it,
    /// taking the newest declaration within that frame (shadowing);
    /// `None` when the name is not declared anywhere.
    pub fn lookup(&self, name: &String) -> (r: Option<u64>)
        ensures
            r is Some ==> exists|i: int, j: int|
                0 <= i < self.frames().len() && 0 <= j < self.frames()[i].len() && (
                #[trigger] self.frames()[i][j]).0@ == name@ && self.frames()[i][j].1 == r.unwrap()
                    && (forall|i2: int, j2: int|
                    i < i2 < self.frames().len() && 0 <= j2 < self.frames()[i2].len() ==> (
                    #[trigger] self.frames()[i2][j2]).0@ != name@) && (forall|j2: int|
                    j < j2 < self.frames()[i].len() ==> (#[trigger] self.frames()[i][j2]).0@
                        != name@),
            r is None ==> !exists|i: int, j: int|
                0 <= i < self.frames().len() && 0 <= j < self.frames()[i].len() && (
                #[trigger] self.frames()[i][j]).0@ == name@,
    {
        let mut fi: usize = self.bindings.len();
        while fi > 0
            invariant
                fi <= self.bindings@.len(),
                forall|i: int, j: int|
                    fi <= i < self.frames().len() && 0 <= j < self.frames()[i].len() ==> (
                    #[trigger] self.frames()[i][j]).0@ != name@,
            decreases fi,
        {
            fi -= 1;
            let frame = &self.bindings[fi];
            let mut j: usize = frame.len();
            while j > 0
                invariant
                    j <= frame@.len(),
                    fi < self.bindings@.len(),
                    frame == &self.bindings@[fi as int],
                    forall|t: int| j <= t < frame@.len() ==> (#[trigger] frame@[t]).0@ != name@,
                    forall|i2: int, j2: int|
                        fi < i2 < self.frames().len() && 0 <= j2 < self.frames()[i2].len() ==> (
                        #[trigger] self.frames()[i2][j2]).0@ != name@,
                decreases j,
            {
                j -= 1;
                if frame[j].0 == *name {
                    proof {
                        assert(self.frames()[fi as int][j as int] == frame@[j as int]);
                        assert forall|j2: int|
                            j < j2 < self.frames()[fi as int].len() implies (
                        #[trigger] self.frames()[fi as int][j2]).0@ != name@ by {
                            assert(self.frames()[fi as int][j2] == frame@[j2]);
                        }
                        let gi: int = fi as int;
                        let gj: int = j as int;
                        assert(0 <= gi < self.frames().len());
                        assert(0 <= gj < self.frames()[gi].len());
                        assert((self.frames()[gi][gj]).0@ == name@);
                        assert(self.frames()[gi][gj].1 == frame@[gj].1);
                        assert(forall|i2: int, j2: int|
                            gi < i2 < self.frames().len() && 0 <= j2 < self.frames()[i2].len()
                                ==> (#[trigger] self.frames()[i2][j2]).0@ != name@);
                        assert(forall|j2: int|
                            gj < j2 < self.frames()[gi].len() ==> (
                            #[trigger] self.frames()[gi][j2]).0@ != name@);
                    }
                    return Some(frame[j].1);
                }
            }
            proof {
                assert forall|jj: int|
                    0 <= jj < self.frames()[fi as int].len() implies (
                #[trigger] self.frames()[fi as int][jj]).0@ != name@ by {
                    assert(self.frames()[fi as int][jj] == frame@[jj]);
                }
            }
        }
        None
    }

    /// Bind `name` in the innermost frame to a fresh id and return it.
    pub fn declare(&mut self, name: String) -> (id: u64)
        requires
            old(self).wf(),
            old(self).next() < u64::MAX,
        ensures
            final(self).wf(),
            id == old(self).next(),
            final(self).next() == old(self).next() + 1,
            final(self).frames().len() == old(self).frames().len(),
            bound_to(final(self).frames(), name@, id),
            // the binding lands in the innermost frame, which otherwise
            // keeps its entries; outer frames are untouched
            final(self).frames().last() == old(self).frames().last().push((name, id)),
            forall|i: int|
                0 <= i < old(self).frames().len() - 1 ==> final(self).frames()[i] == old(
                    self,
                ).frames()[i],
    {
        let id = self.next_id;
        self.next_id = id + 1;
        let fi = self.bindings.len() - 1;
        let ghost pre = self.bindings@;
        let mut frame = self.bindings.remove(fi);
        frame.push((name, id));
        self.bindings.push(frame);
        proof {
            assert(self.bindings@.len() == pre.len());
            let i0 = self.frames().len() - 1;
            let j0 = self.frames()[i0].len() - 1;
            assert(self.frames()[i0][j0].1 == id);
        }
        id
    }

    /// Open a nested lexical scope.
    pub fn enter_scope(&mut self)
        requires
            old(self).wf(),
        ensures
            final(self).wf(),
            final(self).frames().len() == old(self).frames().len() + 1,
            final(self).next() == old(self).next(),
    {
        self.bindings.push(Vec::new());
    }

    /// Close the innermost scope, dropping its bindings.
    pub fn exit_scope(&mut self)
        requires
            old(self).wf(),
            old(self).frames().len() >= 2,
        ensures
            final(self).wf(),
            final(self).frames().len() == old(self).frames().len() - 1,
            final(self).next() == old(self).next(),
    {
        let _frame = self.bindings.pop();
    }
}

} // verus!
