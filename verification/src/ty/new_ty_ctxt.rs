//! The scoped typing context: a stack of binding frames with lexical
//! shadowing.  A frame is opened on entering a binder and discarded on
//! leaving it; lookup walks the frames from innermost to outermost and
//! returns the first match.

use vstd::prelude::*;

use crate::expr::Ident;
use crate::ty::SpecTy;
use crate::ty::SpecTyVar;
use crate::ty::TyVar;
use crate::ty::contains_var;
use crate::ty::distinct_vars;
use crate::ty::subst::Subst;
use crate::ty::vars_view;
use crate::ty::ty_ctxt;
use crate::ty::ty_ctxt::apply_ctxt;
use crate::ty::ty_ctxt::ctxt_ftv;
use crate::ty::ty_scheme::SpecScheme;
use crate::ty::ty_scheme::TyScheme;
use crate::ty::ty_scheme::scheme_ftv;

verus! {

/// Looks a name up in a stack of frames, innermost (last) first.
pub open spec fn lookup_frames(
    frames: Seq<Map<Seq<char>, SpecScheme>>,
    name: Seq<char>,
) -> Option<SpecScheme>
    decreases frames.len(),
{
    if frames.len() == 0 {
        None
    } else if frames.last().dom().contains(name) {
        Some(frames.last()[name])
    } else {
        lookup_frames(frames.drop_last(), name)
    }
}

/// The type variables free in any scheme of any frame.
pub open spec fn frames_ftv(frames: Seq<Map<Seq<char>, SpecScheme>>) -> Set<SpecTyVar> {
    Set::new(
        |v: SpecTyVar|
            exists|i: int| 0 <= i < frames.len() && #[trigger] ctxt_ftv(frames[i]).contains(v),
    )
}

/// A scoped typing context: a stack of binding frames, the last one
/// innermost.
#[derive(Debug)]
pub struct TyCtxt {
    frames: Vec<ty_ctxt::TyCtxt>,
}

impl View for TyCtxt {
    type V = Seq<Map<Seq<char>, SpecScheme>>;

    closed spec fn view(&self) -> Seq<Map<Seq<char>, SpecScheme>> {
        self.frames@.map_values(|c: ty_ctxt::TyCtxt| c@)
    }
}

impl TyCtxt {
    /// Every frame binds pairwise distinct identifiers.
    pub closed spec fn wf(&self) -> bool {
        forall|i: int| 0 <= i < self.frames@.len() ==> (#[trigger] self.frames@[i]).wf()
    }

    /// Creates a context with no open scope.
    pub fn new() -> (r: TyCtxt)
        ensures
            r.wf(),
            r@ == Seq::<Map<Seq<char>, SpecScheme>>::empty(),
    {
        let r = TyCtxt { frames: Vec::new() };
        proof {
            assert(r@ =~= Seq::<Map<Seq<char>, SpecScheme>>::empty());
        }
        r
    }

    /// Opens a new innermost scope.
    pub fn new_scope(&mut self)
        requires
            old(self).wf(),
        ensures
            final (self).wf(),
            final (self)@ == old(self)@.push(Map::<Seq<char>, SpecScheme>::empty()),
    {
        self.frames.push(ty_ctxt::TyCtxt::new());
        proof {
            assert(self@ =~= old(self)@.push(Map::<Seq<char>, SpecScheme>::empty()));
        }
    }

    /// Closes the innermost scope, discarding its bindings.  Calling
    /// this with no open scope is a driver bug, not a recoverable
    /// error, and is ruled out by contract.
    pub fn exit_scope(&mut self)
        requires
            old(self).wf(),
            old(self)@.len() > 0,
        ensures
            final (self).wf(),
            final (self)@ == old(self)@.drop_last(),
    {
        self.frames.pop();
        proof {
            assert(self@ =~= old(self)@.drop_last());
        }
    }

    /// Binds an identifier in the innermost scope, shadowing any outer
    /// binding.  Calling this with no open scope is a driver bug, not
    /// a recoverable error, and is ruled out by contract.
    pub fn add(&mut self, ident: Ident, ty: TyScheme)
        requires
            old(self).wf(),
            old(self)@.len() > 0,
        ensures
            final (self).wf(),
            final (self)@ == old(self)@.update(
                old(self)@.len() - 1,
                old(self)@.last().insert(ident@, ty@),
            ),
    {
        let ghost gold = self@;
        match self.frames.pop() {
            Some(mut frame) => {
                frame.insert(ident, ty);
                self.frames.push(frame);
                proof {
                    assert(self@ =~= gold.update(gold.len() - 1, gold.last().insert(ident@, ty@)));
                }
            },
            None => {},
        }
    }

    /// Looks an identifier up, innermost scope first.
    pub fn get(&self, ident: &Ident) -> (r: Option<&TyScheme>)
        requires
            self.wf(),
        ensures
            match r {
                Some(t) => lookup_frames(self@, ident@) == Some(t@),
                None => lookup_frames(self@, ident@) == None::<SpecScheme>,
            },
    {
        let n = self.frames.len();
        let mut i: usize = n;
        proof {
            assert(self@.take(n as int) =~= self@);
        }
        while i > 0
            invariant
                self.wf(),
                n == self.frames@.len(),
                i <= n,
                lookup_frames(self@, ident@) == lookup_frames(self@.take(i as int), ident@),
            decreases i,
        {
            i -= 1;
            let found = self.frames[i].get(ident);
            proof {
                assert(self@.take(i + 1int).last() == self@[i as int]);
                assert(self@.take(i + 1int).drop_last() =~= self@.take(i as int));
            }
            match found {
                Some(t) => {
                    return Some(t);
                },
                None => {},
            }
        }
        proof {
            assert(self@.take(0int) =~= Seq::<Map<Seq<char>, SpecScheme>>::empty());
        }
        None
    }

    /// The type variables free anywhere in any open scope, without
    /// duplicates.
    pub fn ftv(&self) -> (r: Vec<TyVar>)
        requires
            self.wf(),
        ensures
            distinct_vars(r@),
            forall|v: SpecTyVar| #[trigger]
                vars_view(r@).contains(v) <==> frames_ftv(self@).contains(v),
    {
        let mut acc: Vec<TyVar> = Vec::new();
        let n = self.frames.len();
        let mut i: usize = 0;
        while i < n
            invariant
                self.wf(),
                n == self.frames@.len(),
                i <= n,
                distinct_vars(acc@),
                forall|v: SpecTyVar| #[trigger]
                    vars_view(acc@).contains(v) <==> exists|j: int|
                        0 <= j < i && #[trigger] ctxt_ftv(self@[j]).contains(v),
            decreases n - i,
        {
            let fv = self.frames[i].ftv();
            let m = fv.len();
            let mut k: usize = 0;
            while k < m
                invariant
                    m == fv@.len(),
                    k <= m,
                    distinct_vars(fv@),
                    distinct_vars(acc@),
                    n == self.frames@.len(),
                    i < n,
                    forall|v: SpecTyVar| #[trigger]
                        vars_view(fv@).contains(v) <==> ctxt_ftv(self@[i as int]).contains(v),
                    forall|v: SpecTyVar| #[trigger]
                        vars_view(acc@).contains(v) <==> (exists|j: int|
                            0 <= j < i && #[trigger] ctxt_ftv(self@[j]).contains(v)) || (exists|
                            l: int,
                        |
                            0 <= l < k && (#[trigger] vars_view(fv@)[l]) == v),
                decreases m - k,
            {
                let present = contains_var(&acc, &fv[k]);
                let ghost prev = acc@;
                if !present {
                    acc.push(fv[k].duplicate());
                }
                proof {
                    let x = fv@[k as int]@;
                    assert(vars_view(fv@)[k as int] == x);
                    if !present {
                        assert(vars_view(acc@) =~= vars_view(prev).push(x));
                        assert forall|v: SpecTyVar| #[trigger]
                            vars_view(acc@).contains(v) implies vars_view(prev).contains(v) || v
                            == x by {
                            let l = choose|l: int| #![auto]
                                0 <= l < vars_view(acc@).len() && vars_view(acc@)[l] == v;
                            if l < prev.len() {
                                assert(vars_view(prev)[l] == v);
                            }
                        }
                        assert forall|v: SpecTyVar| #[trigger]
                            vars_view(prev).contains(v) implies vars_view(acc@).contains(v) by {
                            let l = choose|l: int| #![auto]
                                0 <= l < vars_view(prev).len() && vars_view(prev)[l] == v;
                            assert(vars_view(acc@)[l] == v);
                        }
                        assert(vars_view(acc@)[prev.len() as int] == x);
                        assert(vars_view(acc@).contains(x));
                        assert forall|a: int, b: int|
                            0 <= a < b < acc@.len() implies acc@[a]@ != acc@[b]@ by {
                            if b == prev.len() {
                                assert(vars_view(prev)[a] == prev[a]@);
                                if prev[a]@ == x {
                                    assert(vars_view(prev).contains(x));
                                }
                            } else {
                                assert(prev[a]@ != prev[b]@);
                            }
                        }
                    }
                    assert forall|v: SpecTyVar|
                        #[trigger] vars_view(acc@).contains(v) <==> ((exists|j: int|
                            0 <= j < i && #[trigger] ctxt_ftv(self@[j]).contains(v)) || (exists|
                            l: int,
                        |
                            0 <= l < k + 1 && (#[trigger] vars_view(fv@)[l]) == v)) by {
                        if vars_view(acc@).contains(v) {
                            if !present && v == x && !vars_view(prev).contains(v) {
                                assert(vars_view(fv@)[k as int] == v);
                            }
                        }
                        if exists|l: int| 0 <= l < k + 1 && (#[trigger] vars_view(fv@)[l]) == v {
                            let l = choose|l: int|
                                0 <= l < k + 1 && (#[trigger] vars_view(fv@)[l]) == v;
                            if l == k {
                                if present {
                                    assert(vars_view(prev).contains(x));
                                    assert(vars_view(acc@).contains(v));
                                } else {
                                    assert(vars_view(acc@).contains(x));
                                }
                            } else {
                                assert(vars_view(prev).contains(v));
                                if !present {
                                    assert(vars_view(acc@).contains(v));
                                }
                            }
                        }
                        if exists|j: int| 0 <= j < i && #[trigger] ctxt_ftv(self@[j]).contains(v) {
                            assert(vars_view(prev).contains(v));
                            if !present {
                                assert(vars_view(acc@).contains(v));
                            }
                        }
                    }
                }
                k += 1;
            }
            proof {
                assert forall|v: SpecTyVar|
                    #[trigger] vars_view(acc@).contains(v) <==> exists|j: int|
                        0 <= j < i + 1 && #[trigger] ctxt_ftv(self@[j]).contains(v) by {
                    if vars_view(acc@).contains(v) {
                        if exists|l: int| 0 <= l < m && (#[trigger] vars_view(fv@)[l]) == v {
                            assert(vars_view(fv@).contains(v));
                            assert(ctxt_ftv(self@[i as int]).contains(v));
                        }
                    }
                    if exists|j: int| 0 <= j < i + 1 && #[trigger] ctxt_ftv(self@[j]).contains(v) {
                        let j = choose|j: int|
                            0 <= j < i + 1 && #[trigger] ctxt_ftv(self@[j]).contains(v);
                        if j == i {
                            assert(vars_view(fv@).contains(v));
                            let l = choose|l: int| #![auto]
                                0 <= l < m && vars_view(fv@)[l] == v;
                            assert(vars_view(acc@).contains(v));
                        }
                    }
                }
            }
            i += 1;
        }
        proof {
            assert forall|v: SpecTyVar|
                #[trigger] vars_view(acc@).contains(v) <==> frames_ftv(self@).contains(v) by {}
        }
        acc
    }

    /// Applies a substitution across all open scopes: every bound
    /// scheme of every frame is rewritten in place.
    pub fn apply(&self, subst: &Subst) -> (r: TyCtxt)
        requires
            self.wf(),
            subst.wf(),
        ensures
            r.wf(),
            r@.len() == self@.len(),
            forall|i: int| 0 <= i < self@.len() ==> r@[i] == apply_ctxt(subst@, self@[i]),
    {
        let mut frames: Vec<ty_ctxt::TyCtxt> = Vec::new();
        let n = self.frames.len();
        let mut i: usize = 0;
        while i < n
            invariant
                self.wf(),
                subst.wf(),
                n == self.frames@.len(),
                i <= n,
                frames@.len() == i,
                forall|j: int| 0 <= j < i ==> (#[trigger] frames@[j]).wf(),
                forall|j: int| 0 <= j < i ==> frames@[j]@ == apply_ctxt(subst@, self@[j]),
            decreases n - i,
        {
            frames.push(self.frames[i].apply(subst));
            i += 1;
        }
        let r = TyCtxt { frames };
        r
    }
}

} // verus!
