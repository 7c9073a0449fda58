//! A toolbox of fixed functions.
use crate::dsl::assembly::{BuiltNode, BuiltV, WireRef, WireV};
use crate::dsl::ast::{Arg, ArgV, Expr, ExprV};
use crate::dsl::compiler::{Compiler, CompilerV, Toolbox};
use crate::dsl::cursor_sugar::{CursorSugar, SugarV};
use crate::dsl::factory;
use crate::dsl::factory::{ConstArg, ConstV};
use crate::dsl::registry::{FuncSig, OutputType};
use crate::value;
use crate::value::PortType;
use vstd::prelude::*;

verus! {

/// A function and the types of its ports.
#[derive(Debug)]
pub struct Function {
    pub sig: FuncSig,
    pub ins: Vec<PortType>,
    pub outs: Vec<PortType>,
}

/// A toolbox of fixed functions. It has no modules.
#[derive(Debug)]
pub struct Catalog {
    pub functions: Vec<Function>,
    /// What was said of the constructors of cursors, each by its name.
    pub sugars: Vec<(String, Result<CursorSugar, String>)>,
}

/// What was first said of a cursor, from `i` on.
pub open spec fn said_of(
    s: Seq<(String, Result<CursorSugar, String>)>,
    cursor: Seq<char>,
    i: int,
) -> Result<Option<SugarV>, Seq<char>>
    decreases s.len() - i,
{
    if i < 0 || i >= s.len() {
        Ok(None)
    } else if s[i].0@ == cursor {
        match s[i].1 {
            Ok(x) => Ok(Some(x@)),
            Err(e) => Err(e@),
        }
    } else {
        said_of(s, cursor, i + 1)
    }
}

/// The place of the first function of a name.
pub open spec fn place_of(s: Seq<Function>, name: Seq<char>) -> Option<int>
    decreases s.len(),
{
    if s.len() == 0 {
        None
    } else {
        match place_of(s.drop_last(), name) {
            Some(i) => Some(i),
            None => if s.last().sig.name@ == name {
                Some(s.len() - 1)
            } else {
                None
            },
        }
    }
}

/// The types of the outputs of a call.
pub open spec fn out_types(f: Function, types: Seq<PortType>) -> Seq<PortType> {
    match f.sig.output_type {
        OutputType::SameAsInput(i) => if i < types.len() {
            seq![types[i as int]]
        } else {
            seq![PortType::U64]
        },
        OutputType::Fixed => f.outs@,
    }
}

impl Catalog {
    /// The place of the first function `name`.
    fn find(&self, name: &str) -> (r: Option<usize>)
        ensures
            match r {
                Some(i) => i < self.functions@.len() && place_of(self.functions@, name@) == Some(
                    i as int,
                ),
                None => place_of(self.functions@, name@) is None,
            },
    {
        let ghost all = self.functions@;
        let mut i: usize = 0;
        assert(all.take(0) =~= Seq::<Function>::empty());
        while i < self.functions.len()
            invariant
                i <= self.functions@.len(),
                all == self.functions@,
                place_of(all.take(i as int), name@) is None,
            decreases self.functions.len() - i,
        {
            assert(all.take(i + 1).drop_last() =~= all.take(i as int));
            if *self.functions[i].sig.name == *name {
                proof {
                    lemma_place(all, name@, i + 1);
                }
                return Some(i);
            }
            i = i + 1;
        }
        assert(all.take(i as int) =~= all);
        None
    }
}

/// What is found in a beginning is found in the whole.
proof fn lemma_place(s: Seq<Function>, name: Seq<char>, k: int)
    requires
        0 <= k <= s.len(),
        place_of(s.take(k), name) is Some,
    ensures
        place_of(s, name) == place_of(s.take(k), name),
    decreases s.len() - k,
{
    if k == s.len() {
        assert(s.take(k) =~= s);
    } else {
        assert(s.take(k + 1).drop_last() =~= s.take(k));
        lemma_place(s, name, k + 1);
    }
}

impl Toolbox for Catalog {
    open spec fn signature(&self, name: Seq<char>) -> Option<FuncSig> {
        match place_of(self.functions@, name) {
            Some(i) => Some(self.functions@[i].sig),
            None => None,
        }
    }

    open spec fn built(
        &self,
        binding: Option<Seq<char>>,
        func: Seq<char>,
        wires: Seq<WireV>,
        types: Seq<PortType>,
        consts: Seq<ConstV>,
    ) -> Result<BuiltV, Seq<char>> {
        match place_of(self.functions@, func) {
            Some(i) => Ok(
                BuiltV {
                    func,
                    consts,
                    ins: self.functions@[i].ins@,
                    outs: out_types(self.functions@[i], types),
                },
            ),
            None => Err("unknown function: '"@ + func + "'"@),
        }
    }

    open spec fn inlined(
        &self,
        c: CompilerV,
        func: Seq<char>,
        args: Seq<ArgV>,
        targets: Seq<Seq<char>>,
    ) -> (CompilerV, Result<bool, Seq<char>>) {
        (c, Ok(false))
    }

    open spec fn rewritten(&self, cursor: Seq<char>, constructor: ExprV) -> Result<
        Option<SugarV>,
        Seq<char>,
    > {
        said_of(self.sugars@, cursor, 0)
    }

    fn lookup(&self, name: &str) -> (r: Option<&FuncSig>) {
        match self.find(name) {
            Some(i) => Some(&self.functions[i].sig),
            None => None,
        }
    }

    fn build_node(
        &self,
        binding: Option<&str>,
        func: &str,
        wires: &Vec<WireRef>,
        types: &Vec<PortType>,
        consts: &Vec<ConstArg>,
    ) -> (r: Result<BuiltNode, String>) {
        match self.find(func) {
            Some(i) => {
                let f: &Function = &self.functions[i];
                let outs: Vec<PortType> = match f.sig.output_type {
                    OutputType::SameAsInput(k) => {
                        let mut one: Vec<PortType> = Vec::new();
                        one.push(
                            if k < types.len() {
                                types[k]
                            } else {
                                PortType::U64
                            },
                        );
                        one
                    },
                    OutputType::Fixed => value::same_items(&f.outs),
                };
                assert(outs@ =~= out_types(self.functions@[i as int], types@));
                Ok(
                    BuiltNode {
                        func: func.to_owned(),
                        consts: factory::copy_consts(consts),
                        ins: value::same_items(&f.ins),
                        outs,
                    },
                )
            },
            None => {
                let mut m: String = "unknown function: '".to_owned();
                m.append(func);
                m.append("'");
                Err(m)
            },
        }
    }

    fn try_inline_module(
        &self,
        c: &mut Compiler,
        func: &str,
        args: &Vec<Arg>,
        targets: &Vec<String>,
    ) -> (r: Result<bool, String>) {
        Ok(false)
    }

    fn rewrite_cursor(&self, cursor: &str, constructor: &Expr) -> (r: Result<
        Option<CursorSugar>,
        String,
    >) {
        let mut i: usize = 0;
        while i < self.sugars.len()
            invariant
                i <= self.sugars@.len(),
                said_of(self.sugars@, cursor@, 0) == said_of(self.sugars@, cursor@, i as int),
            decreases self.sugars.len() - i,
        {
            if *self.sugars[i].0.as_str() == *cursor {
                return match &self.sugars[i].1 {
                    Ok(x) => Ok(Some(x.copy())),
                    Err(e) => Err(e.clone()),
                };
            }
            i = i + 1;
        }
        Ok(None)
    }
}

} // verus!
