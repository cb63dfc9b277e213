use vstd::prelude::*;

use crate::errors::LangError;
use crate::text::str_eq;
use crate::token::{models, Token, TokenModel, TokenType};

verus! {

/// A value produced by evaluation or stored in a scope frame.
///
/// Numbers stay textual until an operator forces interpretation, which is why
/// `Number` carries the decimal text rather than a machine number.
#[derive(Debug)]
pub enum SymbolType {
    Number(String),
    String(String),
    Object(ObjectSymbolArgs),
    Array(ArraySymbolArgs),
    Function(FunctionSymbolArgs),
    Pointer(String),
}

/// A declared (not executable) function: parameter list plus the unevaluated
/// body token sequence.
#[derive(Debug)]
pub struct FunctionSymbolArgs {
    pub args: Vec<Token>,
    pub body: Vec<Token>,
}

/// An object literal: an insertion-ordered mapping from key values to values.
/// The order is preserved because it is observable on iteration.
#[derive(Debug)]
pub struct ObjectSymbolArgs {
    pub entries: Vec<(SymbolType, SymbolType)>,
}

/// An array literal: an ordered sequence of values, whose elements may be
/// `Pointer` aliases into the enclosing scope.
#[derive(Debug)]
pub struct ArraySymbolArgs {
    pub array: Vec<SymbolType>,
}

/// Mathematical model of a `SymbolType`.
#[verifier::ext_equal]
pub ghost enum SymbolModel {
    Num(Seq<char>),
    Text(Seq<char>),
    Obj(Seq<(SymbolModel, SymbolModel)>),
    Arr(Seq<SymbolModel>),
    Func(Seq<TokenModel>, Seq<TokenModel>),
    Ptr(Seq<char>),
}

/// The model of a value.
pub open spec fn sym_model(s: SymbolType) -> SymbolModel
    decreases s,
{
    match s {
        SymbolType::Number(t) => SymbolModel::Num(t@),
        SymbolType::String(t) => SymbolModel::Text(t@),
        SymbolType::Object(o) => SymbolModel::Obj(
            Seq::new(
                o.entries@.len(),
                |i: int|
                    if 0 <= i < o.entries@.len() {
                        (sym_model(o.entries@[i].0), sym_model(o.entries@[i].1))
                    } else {
                        (SymbolModel::Num(Seq::empty()), SymbolModel::Num(Seq::empty()))
                    },
            ),
        ),
        SymbolType::Array(a) => SymbolModel::Arr(
            Seq::new(
                a.array@.len(),
                |i: int|
                    if 0 <= i < a.array@.len() {
                        sym_model(a.array@[i])
                    } else {
                        SymbolModel::Num(Seq::empty())
                    },
            ),
        ),
        SymbolType::Function(f) => SymbolModel::Func(models(f.args@), models(f.body@)),
        SymbolType::Pointer(t) => SymbolModel::Ptr(t@),
    }
}

/// Whether a value is scalar: substitutable into an expression position.
pub open spec fn is_scalar(s: SymbolModel) -> bool {
    s is Num || s is Text
}

/// The primitive text of a scalar value.
pub open spec fn scalar_text(s: SymbolModel) -> Seq<char> {
    match s {
        SymbolModel::Num(t) => t,
        SymbolModel::Text(t) => t,
        _ => Seq::empty(),
    }
}

/// One scope frame: a set of name-to-value bindings.
#[derive(Debug)]
pub struct Scope {
    pub symbols: Vec<(String, SymbolType)>,
}

/// The model of a frame: its bindings, in insertion order.
pub open spec fn scope_model(s: Scope) -> Seq<(Seq<char>, SymbolModel)> {
    Seq::new(
        s.symbols@.len(),
        |i: int|
            if 0 <= i < s.symbols@.len() {
                (s.symbols@[i].0@, sym_model(s.symbols@[i].1))
            } else {
                (Seq::empty(), SymbolModel::Num(Seq::empty()))
            },
    )
}

/// The first binding of `name` in a frame model, scanning in insertion order.
pub open spec fn frame_lookup(frame: Seq<(Seq<char>, SymbolModel)>, name: Seq<char>) -> Option<
    SymbolModel,
>
    decreases frame.len(),
{
    if frame.len() == 0 {
        None
    } else if frame[0].0 == name {
        Some(frame[0].1)
    } else {
        frame_lookup(frame.drop_first(), name)
    }
}

/// A name is bound at most once per frame.
pub open spec fn frame_wf(frame: Seq<(Seq<char>, SymbolModel)>) -> bool {
    forall|i: int, j: int| 0 <= i < j < frame.len() ==> frame[i].0 != frame[j].0
}

impl Scope {
    pub open spec fn wf(&self) -> bool {
        frame_wf(scope_model(*self))
    }

    /// A fresh, empty frame.
    pub fn new() -> (r: Scope)
        ensures
            scope_model(r) == Seq::<(Seq<char>, SymbolModel)>::empty(),
            r.wf(),
    {
        let r = Scope { symbols: Vec::new() };
        proof {
            assert(scope_model(r) =~= Seq::<(Seq<char>, SymbolModel)>::empty());
        }
        r
    }

    /// Whether `name` is bound in this frame, and to what.
    pub fn get(&self, name: &str) -> (r: Option<&SymbolType>)
        ensures
            match r {
                Some(s) => frame_lookup(scope_model(*self), name@) == Some(sym_model(*s)),
                None => frame_lookup(scope_model(*self), name@) is None,
            },
    {
        let ghost fm = scope_model(*self);
        proof {
            assert(fm.skip(0) =~= fm);
        }
        let mut i: usize = 0;
        while i < self.symbols.len()
            invariant
                0 <= i <= self.symbols.len(),
                fm == scope_model(*self),
                fm.len() == self.symbols@.len(),
                frame_lookup(fm.skip(i as int), name@) == frame_lookup(fm, name@),
                forall|j: int| 0 <= j < i ==> fm[j].0 != name@,
            decreases self.symbols.len() - i,
        {
            proof {
                assert(fm.skip(i as int)[0] == fm[i as int]);
                assert(fm.skip(i as int).drop_first() =~= fm.skip(i as int + 1));
            }
            if str_eq(self.symbols[i].0.as_str(), name) {
                return Some(&self.symbols[i].1);
            }
            i += 1;
        }
        proof {
            assert(fm.skip(i as int) =~= Seq::<(Seq<char>, SymbolModel)>::empty());
        }
        None
    }

    /// Binds `name` to `symbol` in this frame, replacing any prior binding of
    /// the same name.
    pub fn add(&mut self, name: String, symbol: SymbolType)
        requires
            old(self).wf(),
        ensures
            final(self).wf(),
            forall|n: Seq<char>|
                frame_lookup(scope_model(*final(self)), n) == if n == name@ {
                    Some(sym_model(symbol))
                } else {
                    frame_lookup(scope_model(*old(self)), n)
                },
            frame_lookup(scope_model(*old(self)), name@) is None ==> scope_model(*final(self))
                == scope_model(*old(self)).push((name@, sym_model(symbol))),
    {
        let ghost oldm = scope_model(*old(self));
        let mut i: usize = 0;
        while i < self.symbols.len()
            invariant
                0 <= i <= self.symbols.len(),
                *self == *old(self),
                oldm == scope_model(*self),
                oldm.len() == self.symbols@.len(),
                frame_wf(oldm),
                forall|j: int| 0 <= j < i ==> oldm[j].0 != name@,
            decreases self.symbols.len() - i,
        {
            if str_eq(self.symbols[i].0.as_str(), name.as_str()) {
                proof {
                    lemma_frame_lookup_present(oldm, i as int);
                }
                self.symbols.set(i, (name, symbol));
                proof {
                    let newm = scope_model(*self);
                    assert(newm =~= oldm.update(i as int, (oldm[i as int].0, sym_model(symbol))));
                    lemma_frame_update(oldm, i as int, sym_model(symbol), name@);
                }
                return ;
            }
            i += 1;
        }
        self.symbols.push((name, symbol));
        proof {
            let newm = scope_model(*self);
            assert(newm =~= oldm.push((name@, sym_model(symbol))));
            lemma_frame_push(oldm, name@, sym_model(symbol));
        }
    }
}

impl Scope {
    /// Binds the name carried by one literal token to the number text carried
    /// by another; any other token shapes are a syntax error and change
    /// nothing.
    pub fn add_number(&mut self, name_tok: Token, value_tok: Token) -> (r: Result<(), LangError>)
        requires
            old(self).wf(),
        ensures
            final(self).wf(),
            match r {
                Ok(()) => crate::token::is_literal(name_tok@) && crate::token::is_literal(
                    value_tok@,
                ) && forall|n: Seq<char>|
                    frame_lookup(scope_model(*final(self)), n) == if n == crate::token::payload_of(
                        name_tok@,
                    ) {
                        Some(SymbolModel::Num(crate::token::payload_of(value_tok@)))
                    } else {
                        frame_lookup(scope_model(*old(self)), n)
                    },
                Err(e) => e == LangError::SyntaxError && !(crate::token::is_literal(name_tok@)
                    && crate::token::is_literal(value_tok@)) && *final(self) == *old(self),
            },
    {
        if !(name_tok.tok_type == TokenType::Literal && value_tok.tok_type == TokenType::Literal) {
            return Err(LangError::SyntaxError);
        }
        let name: String = match name_tok.tok_value {
            Some(tv) => match tv.s_val {
                Some(s) => s,
                None => {
                    return Err(LangError::SyntaxError);
                },
            },
            None => {
                return Err(LangError::SyntaxError);
            },
        };
        let value: String = match value_tok.tok_value {
            Some(tv) => match tv.s_val {
                Some(s) => s,
                None => {
                    return Err(LangError::SyntaxError);
                },
            },
            None => {
                return Err(LangError::SyntaxError);
            },
        };
        self.add(name, SymbolType::Number(value));
        Ok(())
    }
}

/// A name that sits at some position of a frame is found by lookup.
proof fn lemma_frame_lookup_present(frame: Seq<(Seq<char>, SymbolModel)>, i: int)
    requires
        0 <= i < frame.len(),
    ensures
        frame_lookup(frame, frame[i].0) is Some,
    decreases frame.len(),
{
    if frame[0].0 == frame[i].0 {
    } else {
        lemma_frame_lookup_present(frame.drop_first(), i - 1);
    }
}

/// Replacing the binding at a position where the name sits keeps the frame
/// well formed and changes only that name's lookup.
proof fn lemma_frame_update(
    frame: Seq<(Seq<char>, SymbolModel)>,
    i: int,
    v: SymbolModel,
    name: Seq<char>,
)
    requires
        frame_wf(frame),
        0 <= i < frame.len(),
        frame[i].0 == name,
    ensures
        frame_wf(frame.update(i, (name, v))),
        forall|n: Seq<char>|
            frame_lookup(frame.update(i, (name, v)), n) == if n == name {
                Some(v)
            } else {
                frame_lookup(frame, n)
            },
    decreases frame.len(),
{
    let upd = frame.update(i, (name, v));
    assert forall|n: Seq<char>|
        frame_lookup(upd, n) == (if n == name {
            Some(v)
        } else {
            frame_lookup(frame, n)
        }) by {
        lemma_frame_lookup_update(frame, i, v, name, n);
    }
}

proof fn lemma_frame_lookup_update(
    frame: Seq<(Seq<char>, SymbolModel)>,
    i: int,
    v: SymbolModel,
    name: Seq<char>,
    n: Seq<char>,
)
    requires
        frame_wf(frame),
        0 <= i < frame.len(),
        frame[i].0 == name,
    ensures
        frame_lookup(frame.update(i, (name, v)), n) == if n == name {
            Some(v)
        } else {
            frame_lookup(frame, n)
        },
    decreases frame.len(),
{
    let upd = frame.update(i, (name, v));
    if i == 0 {
        if n != name {
            assert(upd.drop_first() =~= frame.drop_first());
        }
    } else {
        assert(upd[0] == frame[0]);
        if frame[0].0 == n {
        } else {
            assert(upd.drop_first() =~= frame.drop_first().update(i - 1, (name, v)));
            lemma_frame_lookup_update(frame.drop_first(), i - 1, v, name, n);
        }
    }
}

/// Appending a binding of a name not yet in the frame keeps it well formed
/// and changes only that name's lookup.
proof fn lemma_frame_push(frame: Seq<(Seq<char>, SymbolModel)>, name: Seq<char>, v: SymbolModel)
    requires
        frame_wf(frame),
        forall|j: int| 0 <= j < frame.len() ==> frame[j].0 != name,
    ensures
        frame_wf(frame.push((name, v))),
        forall|n: Seq<char>|
            frame_lookup(frame.push((name, v)), n) == if n == name {
                Some(v)
            } else {
                frame_lookup(frame, n)
            },
    decreases frame.len(),
{
    let p = frame.push((name, v));
    assert forall|n: Seq<char>|
        frame_lookup(p, n) == (if n == name {
            Some(v)
        } else {
            frame_lookup(frame, n)
        }) by {
        lemma_frame_lookup_push(frame, name, v, n);
    }
}

proof fn lemma_frame_lookup_push(
    frame: Seq<(Seq<char>, SymbolModel)>,
    name: Seq<char>,
    v: SymbolModel,
    n: Seq<char>,
)
    requires
        forall|j: int| 0 <= j < frame.len() ==> frame[j].0 != name,
    ensures
        frame_lookup(frame.push((name, v)), n) == if n == name {
            Some(v)
        } else {
            frame_lookup(frame, n)
        },
    decreases frame.len(),
{
    let p = frame.push((name, v));
    if frame.len() == 0 {
        assert(p[0] == (name, v));
        assert(p.drop_first() =~= Seq::<(Seq<char>, SymbolModel)>::empty());
        assert(frame_lookup(p.drop_first(), n) is None);
        assert(frame_lookup(frame, n) is None);
    } else {
        assert(p[0] == frame[0]);
        assert(p.drop_first() =~= frame.drop_first().push((name, v)));
        lemma_frame_lookup_push(frame.drop_first(), name, v, n);
    }
}

/// The scope stack of one evaluation context. Frames are pushed and popped
/// in strict stack discipline; the innermost frame is the last one pushed.
#[derive(Debug)]
pub struct CallStack {
    pub frames: Vec<Scope>,
}

/// The model of the stack: each frame's bindings, outermost first.
pub open spec fn stack_model(cs: CallStack) -> Seq<Seq<(Seq<char>, SymbolModel)>> {
    Seq::new(
        cs.frames@.len(),
        |i: int|
            if 0 <= i < cs.frames@.len() {
                scope_model(cs.frames@[i])
            } else {
                Seq::empty()
            },
    )
}

/// Innermost-first lookup: frames are searched from the most recently pushed
/// to the least recently pushed, and the first match wins.
pub open spec fn stack_lookup(
    sm: Seq<Seq<(Seq<char>, SymbolModel)>>,
    name: Seq<char>,
) -> Option<SymbolModel>
    decreases sm.len(),
{
    if sm.len() == 0 {
        None
    } else {
        match frame_lookup(sm.last(), name) {
            Some(v) => Some(v),
            None => stack_lookup(sm.drop_last(), name),
        }
    }
}

/// What binding a name to a value does to the stack model: an empty stack
/// first gains a fresh frame; a name already bound in the innermost frame is
/// a redefinition error and leaves the stack unchanged.
pub open spec fn spec_bind(
    sm: Seq<Seq<(Seq<char>, SymbolModel)>>,
    name: Seq<char>,
    v: SymbolModel,
) -> Result<Seq<Seq<(Seq<char>, SymbolModel)>>, LangError> {
    let sm1 = if sm.len() == 0 {
        sm.push(Seq::empty())
    } else {
        sm
    };
    if frame_lookup(sm1.last(), name) is Some {
        Err(LangError::RedefinitionError)
    } else {
        Ok(sm1.update(sm1.len() - 1, sm1.last().push((name, v))))
    }
}

impl CallStack {
    /// Every frame binds each name at most once.
    pub open spec fn wf(&self) -> bool {
        forall|i: int| 0 <= i < stack_model(*self).len() ==> frame_wf(stack_model(*self)[i])
    }

    /// A stack with no frames.
    pub fn new() -> (r: CallStack)
        ensures
            stack_model(r) == Seq::<Seq<(Seq<char>, SymbolModel)>>::empty(),
            r.wf(),
    {
        let r = CallStack { frames: Vec::new() };
        proof {
            assert(stack_model(r) =~= Seq::<Seq<(Seq<char>, SymbolModel)>>::empty());
        }
        r
    }

    /// Pushes a frame; it becomes the innermost one.
    pub fn push(&mut self, scope: Scope)
        requires
            old(self).wf(),
            scope.wf(),
        ensures
            final(self).wf(),
            stack_model(*final(self)) == stack_model(*old(self)).push(scope_model(scope)),
    {
        self.frames.push(scope);
        proof {
            assert(stack_model(*self) =~= stack_model(*old(self)).push(scope_model(scope)));
        }
    }

    /// Discards the innermost frame; popping an empty stack does nothing.
    pub fn pop(&mut self)
        requires
            old(self).wf(),
        ensures
            final(self).wf(),
            stack_model(*final(self)) == if stack_model(*old(self)).len() == 0 {
                stack_model(*old(self))
            } else {
                stack_model(*old(self)).drop_last()
            },
    {
        let _ = self.frames.pop();
        proof {
            if stack_model(*old(self)).len() == 0 {
                assert(stack_model(*self) =~= stack_model(*old(self)));
            } else {
                assert(stack_model(*self) =~= stack_model(*old(self)).drop_last());
            }
        }
    }

    /// Binds `name` to `symbol` in the innermost frame, creating a frame if
    /// the stack is empty. A name already bound in that frame is a
    /// redefinition error, and the stack is left untouched.
    pub fn add_symbol(&mut self, name: String, symbol: SymbolType) -> (r: Result<(), LangError>)
        requires
            old(self).wf(),
        ensures
            final(self).wf(),
            match r {
                Ok(()) => spec_bind(stack_model(*old(self)), name@, sym_model(symbol)) == Ok::<
                    _,
                    LangError,
                >(stack_model(*final(self))),
                Err(e) => spec_bind(stack_model(*old(self)), name@, sym_model(symbol)) == Err::<
                    Seq<Seq<(Seq<char>, SymbolModel)>>,
                    _,
                >(e) && stack_model(*final(self)) == stack_model(*old(self)),
            },
    {
        let ghost oldm = stack_model(*old(self));
        if self.frames.len() == 0 {
            self.frames.push(Scope::new());
            proof {
                assert(stack_model(*self) =~= oldm.push(Seq::empty()));
            }
        }
        let ghost sm1 = stack_model(*self);
        proof {
            assert(sm1 == if oldm.len() == 0 {
                oldm.push(Seq::empty())
            } else {
                oldm
            });
        }
        let top = self.frames.len() - 1;
        proof {
            assert(scope_model(self.frames@[top as int]) == sm1.last());
        }
        if self.frames[top].get(name.as_str()).is_some() {
            return Err(LangError::RedefinitionError);
        }
        let mut frame = self.frames.pop().unwrap();
        frame.add(name, symbol);
        self.frames.push(frame);
        proof {
            assert(stack_model(*self) =~= sm1.update(
                sm1.len() - 1,
                sm1.last().push((name@, sym_model(symbol))),
            ));
            assert forall|i: int| 0 <= i < stack_model(*self).len() implies frame_wf(
                stack_model(*self)[i],
            ) by {
                if i < sm1.len() - 1 {
                    assert(stack_model(*self)[i] == sm1[i]);
                }
            }
        }
        Ok(())
    }

    /// Innermost-first lookup across all frames.
    pub fn lookup_symbol(&self, name: &str) -> (r: Option<&SymbolType>)
        ensures
            match r {
                Some(s) => stack_lookup(stack_model(*self), name@) == Some(sym_model(*s)),
                None => stack_lookup(stack_model(*self), name@) is None,
            },
    {
        let ghost sm = stack_model(*self);
        proof {
            assert(sm.take(sm.len() as int) =~= sm);
        }
        let mut i: usize = self.frames.len();
        while i > 0
            invariant
                0 <= i <= self.frames.len(),
                sm == stack_model(*self),
                sm.len() == self.frames@.len(),
                stack_lookup(sm.take(i as int), name@) == stack_lookup(sm, name@),
            decreases i,
        {
            i -= 1;
            proof {
                assert(sm.take(i as int + 1).last() == sm[i as int]);
                assert(sm.take(i as int + 1).drop_last() =~= sm.take(i as int));
            }
            match self.frames[i].get(name) {
                Some(v) => {
                    return Some(v);
                },
                None => {},
            }
        }
        proof {
            assert(sm.take(0) =~= Seq::<Seq<(Seq<char>, SymbolModel)>>::empty());
        }
        None
    }
}

} // verus!
