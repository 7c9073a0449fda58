//! Rewriting of cursor constructors.
//!
//! A rule recognises a constructor of its own and rewrites it to one that
//! is understood, with bindings to add after the inputs of the cursor. The
//! rules are asked one after the other; the first that recognises the
//! constructor stands.
use crate::dsl::ast::{Expr, ExprV};
use crate::value::PortType;
use vstd::prelude::*;

verus! {

/// What a rule rewrites a constructor to.
#[derive(Debug, PartialEq)]
pub struct CursorSugar {
    /// The constructor in its place.
    pub effective_constructor: Expr,
    /// The bindings to add, in order.
    pub aux_bindings: Vec<AuxBinding>,
}

/// A binding that a rule adds. With a projection, what is bound is also
/// given by each step of the cursor.
#[derive(Debug, PartialEq)]
pub struct AuxBinding {
    pub name: String,
    pub value: Expr,
    pub projection: Option<(String, PortType)>,
}

/// The content of a rewriting.
#[verifier::ext_equal]
pub struct SugarV {
    pub constructor: ExprV,
    pub bindings: Seq<AuxV>,
}

/// The content of a binding that a rule adds.
#[verifier::ext_equal]
pub struct AuxV {
    pub name: Seq<char>,
    pub value: ExprV,
    pub projection: Option<(Seq<char>, PortType)>,
}

impl View for AuxBinding {
    type V = AuxV;

    open spec fn view(&self) -> AuxV {
        AuxV {
            name: self.name@,
            value: self.value@,
            projection: match self.projection {
                Some(p) => Some((p.0@, p.1)),
                None => None,
            },
        }
    }
}

/// The contents of a run of bindings that a rule adds.
pub open spec fn aux_views(s: Seq<AuxBinding>) -> Seq<AuxV> {
    Seq::new(s.len(), |i: int| s[i]@)
}

impl View for CursorSugar {
    type V = SugarV;

    open spec fn view(&self) -> SugarV {
        SugarV {
            constructor: self.effective_constructor@,
            bindings: aux_views(self.aux_bindings@),
        }
    }
}

impl AuxBinding {
    /// The same binding.
    pub fn copy(&self) -> (r: AuxBinding)
        ensures
            r@ == self@,
    {
        AuxBinding {
            name: self.name.clone(),
            value: self.value.copy(),
            projection: match &self.projection {
                Some(p) => Some((p.0.clone(), p.1)),
                None => None,
            },
        }
    }
}

impl CursorSugar {
    /// The same rewriting.
    pub fn copy(&self) -> (r: CursorSugar)
        ensures
            r@ == self@,
    {
        let mut out: Vec<AuxBinding> = Vec::new();
        let mut i: usize = 0;
        while i < self.aux_bindings.len()
            invariant
                i <= self.aux_bindings@.len(),
                out@.len() == i,
                forall|k: int|
                    0 <= k < i ==> (#[trigger] out@[k])@ == self.aux_bindings@[k]@,
            decreases self.aux_bindings.len() - i,
        {
            out.push(self.aux_bindings[i].copy());
            i = i + 1;
        }
        assert(aux_views(out@) =~= aux_views(self.aux_bindings@));
        CursorSugar {
            effective_constructor: self.effective_constructor.copy(),
            aux_bindings: out,
        }
    }
}

/// The content of what a rule says of a constructor.
pub open spec fn sugar_view(r: Result<Option<CursorSugar>, String>) -> Result<
    Option<SugarV>,
    Seq<char>,
> {
    match r {
        Ok(Some(s)) => Ok(Some(s@)),
        Ok(None) => Ok(None),
        Err(e) => Err(e@),
    }
}

/// What the first rule that recognises a constructor says of it, of what
/// each rule says in turn.
pub open spec fn first_match(s: Seq<Result<Option<SugarV>, Seq<char>>>) -> Result<
    Option<SugarV>,
    Seq<char>,
>
    decreases s.len(),
{
    if s.len() == 0 {
        Ok(None)
    } else if s[0] == Ok::<Option<SugarV>, Seq<char>>(None) {
        first_match(s.drop_first())
    } else {
        s[0]
    }
}

/// Walks what the rules say of a constructor, in the order in which they
/// are asked, and gives the first that is not silence.
pub fn dispatch(replies: Vec<Result<Option<CursorSugar>, String>>) -> (r: Result<
    Option<CursorSugar>,
    String,
>)
    ensures
        sugar_view(r) == first_match(
            Seq::new(replies@.len(), |i: int| sugar_view(replies@[i])),
        ),
{
    let ghost all = Seq::new(replies@.len(), |i: int| sugar_view(replies@[i]));
    let mut rest: Vec<Result<Option<CursorSugar>, String>> = replies;
    assert(rest@ =~= replies@.skip(0));
    let ghost mut gone: int = 0;
    assert(all.skip(0) =~= all);
    while rest.len() > 0
        invariant
            0 <= gone <= replies@.len(),
            rest@ == replies@.skip(gone),
            all == Seq::new(replies@.len(), |i: int| sugar_view(replies@[i])),
            first_match(all) == first_match(all.skip(gone)),
        decreases rest.len(),
    {
        let head: Result<Option<CursorSugar>, String> = rest.remove(0);
        assert(all.skip(gone)[0] == sugar_view(head));
        assert(all.skip(gone).drop_first() =~= all.skip(gone + 1));
        assert(rest@ =~= replies@.skip(gone + 1));
        match head {
            Ok(None) => {},
            other => {
                return other;
            },
        }
        proof {
            gone = gone + 1;
        }
    }
    Ok(None)
}

} // verus!
