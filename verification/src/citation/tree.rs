//! Expressions over the types of citations: which sets of types meet a
//! requirement.

use crate::citation::types::{Type, TypeSet};
use crate::error::Error;
use crate::text::{
    alphanumeric, is_alphanumeric, is_prefix, strip_prefix, trim_start, trimmed_start,
};
use vstd::prelude::*;
use vstd::string::*;

verus! {

/// An expression over types of citation.
#[derive(Debug)]
pub enum Tree {
    /// The type is in the set.
    Type(Type),
    /// One of the arguments holds, at least.
    Any(Vec<Tree>),
    /// Every argument holds.
    All(Vec<Tree>),
    /// One of the arguments holds, and one only.
    Xor(Vec<Tree>),
    /// The argument does not hold.
    Not(Box<Tree>),
}

/// How an expression combines its arguments.
#[derive(Clone, Copy, Debug, PartialEq, Eq, Structural)]
pub enum Op {
    Any,
    All,
    Xor,
    Not,
}

impl Tree {
    /// Every type of the expression can be a member of a set of types.
    pub open spec fn wf(self) -> bool
        decreases self,
    {
        match self {
            Tree::Type(ty) => ty.0 < 64,
            Tree::Any(args) => forall|i: int| 0 <= i < args@.len() ==> (#[trigger] args@[i]).wf(),
            Tree::All(args) => forall|i: int| 0 <= i < args@.len() ==> (#[trigger] args@[i]).wf(),
            Tree::Xor(args) => forall|i: int| 0 <= i < args@.len() ==> (#[trigger] args@[i]).wf(),
            Tree::Not(arg) => arg.wf(),
        }
    }

    /// Whether the expression holds of a set of types.
    pub open spec fn holds(self, set: Set<u8>) -> bool
        decreases self,
    {
        match self {
            Tree::Type(ty) => set.contains(ty.0),
            Tree::Any(args) => exists|i: int|
                0 <= i < args@.len() && (#[trigger] args@[i]).holds(set),
            Tree::All(args) => forall|i: int|
                0 <= i < args@.len() ==> (#[trigger] args@[i]).holds(set),
            Tree::Xor(args) => {
                &&& exists|i: int| 0 <= i < args@.len() && (#[trigger] args@[i]).holds(set)
                &&& forall|i: int, j: int|
                    0 <= i < args@.len() && 0 <= j < args@.len() && (#[trigger] args@[i]).holds(set)
                        && (#[trigger] args@[j]).holds(set) ==> i == j
            },
            Tree::Not(arg) => !arg.holds(set),
        }
    }

    /// Every type of the expression is one that `q` answers for.
    pub open spec fn asks<Q: Query>(self, q: &Q) -> bool
        decreases self,
    {
        match self {
            Tree::Type(ty) => q.takes(ty),
            Tree::Any(args) => forall|i: int|
                0 <= i < args@.len() ==> (#[trigger] args@[i]).asks(q),
            Tree::All(args) => forall|i: int|
                0 <= i < args@.len() ==> (#[trigger] args@[i]).asks(q),
            Tree::Xor(args) => forall|i: int|
                0 <= i < args@.len() ==> (#[trigger] args@[i]).asks(q),
            Tree::Not(arg) => arg.asks(q),
        }
    }

    /// What `q` makes of the expression: what it answers for a type, and what
    /// it makes of the answers for the arguments of an operator.
    pub open spec fn value<Q: Query>(self, q: &Q) -> Q::Value
        decreases self,
    {
        match self {
            Tree::Type(ty) => q.of_type(ty),
            Tree::Any(args) => q.of_any(values(args@, q)),
            Tree::All(args) => q.of_all(values(args@, q)),
            Tree::Xor(args) => q.of_xor(values(args@, q)),
            Tree::Not(arg) => q.of_not(arg.value(q)),
        }
    }

    /// What `query` makes of the expression.
    #[verifier::loop_isolation(false)]
    pub fn query<Q: Query>(&self, query: &Q) -> (v: Q::Value)
        requires
            self.asks(query),
        ensures
            v == self.value(query),
        decreases self,
    {
        match self {
            Tree::Type(ty) => {
                assert(*self == Tree::Type(*ty));
                query.eval(*ty)
            },
            Tree::Any(args) => {
                assert(*self == Tree::Any(*args));
                let found = Tree::query_all(args, query);
                query.any(found.as_slice())
            },
            Tree::All(args) => {
                assert(*self == Tree::All(*args));
                let found = Tree::query_all(args, query);
                query.all(found.as_slice())
            },
            Tree::Xor(args) => {
                assert(*self == Tree::Xor(*args));
                let found = Tree::query_all(args, query);
                query.xor(found.as_slice())
            },
            Tree::Not(arg) => {
                assert(*self == Tree::Not(*arg));
                let found = arg.query(query);
                query.not(found)
            },
        }
    }

    /// What `query` makes of each of the expressions.
    #[verifier::loop_isolation(false)]
    fn query_all<Q: Query>(args: &Vec<Tree>, query: &Q) -> (found: Vec<Q::Value>)
        requires
            forall|i: int| 0 <= i < args@.len() ==> (#[trigger] args@[i]).asks(query),
        ensures
            found@ == values(args@, query),
        decreases args,
    {
        let mut found: Vec<Q::Value> = Vec::new();
        let mut i: usize = 0;
        while i < args.len()
            invariant
                i <= args@.len(),
                found@.len() == i,
                forall|k: int| 0 <= k < i ==> found@[k] == (#[trigger] args@[k]).value(query),
            decreases args@.len() - i,
        {
            proof {
                vstd::std_specs::vec::axiom_vec_index_decreases(*args, i as int);
            }
            let value = args[i].query(query);
            found.push(value);
            i += 1;
        }
        assert(found@ =~= values(args@, query));
        found
    }
}

/// What `q` makes of each of the expressions.
pub open spec fn values<Q: Query>(trees: Seq<Tree>, q: &Q) -> Seq<Q::Value>
    decreases trees,
{
    Seq::new(
        trees.len(),
        |i: int|
            if 0 <= i < trees.len() {
                trees[i].value(q)
            } else {
                arbitrary()
            },
    )
}

/// What answers for types, and makes one answer of the answers for the
/// arguments of an operator.
pub trait Query {
    type Value;

    /// The type is one that is answered for.
    spec fn takes(&self, ty: Type) -> bool;

    /// The answer for a type.
    spec fn of_type(&self, ty: Type) -> Self::Value;

    /// The answer for arguments that are all to hold.
    spec fn of_all(&self, args: Seq<Self::Value>) -> Self::Value;

    /// The answer for arguments of which one is to hold, at least.
    spec fn of_any(&self, args: Seq<Self::Value>) -> Self::Value;

    /// The answer for arguments of which one is to hold, and one only.
    spec fn of_xor(&self, args: Seq<Self::Value>) -> Self::Value;

    /// The answer for an argument that is not to hold.
    spec fn of_not(&self, arg: Self::Value) -> Self::Value;

    fn eval(&self, ty: Type) -> (v: Self::Value)
        requires
            self.takes(ty),
        ensures
            v == self.of_type(ty),
    ;

    fn all(&self, args: &[Self::Value]) -> (v: Self::Value)
        ensures
            v == self.of_all(args@),
    ;

    fn any(&self, args: &[Self::Value]) -> (v: Self::Value)
        ensures
            v == self.of_any(args@),
    ;

    fn xor(&self, args: &[Self::Value]) -> (v: Self::Value)
        ensures
            v == self.of_xor(args@),
    ;

    fn not(&self, arg: Self::Value) -> (v: Self::Value)
        ensures
            v == self.of_not(arg),
    ;
}

impl Query for TypeSet {
    type Value = bool;

    open spec fn takes(&self, ty: Type) -> bool {
        ty.0 < 64
    }

    open spec fn of_type(&self, ty: Type) -> bool {
        self@.contains(ty.0)
    }

    open spec fn of_all(&self, args: Seq<bool>) -> bool {
        forall|i: int| 0 <= i < args.len() ==> args[i]
    }

    open spec fn of_any(&self, args: Seq<bool>) -> bool {
        exists|i: int| 0 <= i < args.len() && args[i]
    }

    open spec fn of_xor(&self, args: Seq<bool>) -> bool {
        &&& exists|i: int| 0 <= i < args.len() && args[i]
        &&& forall|i: int, j: int|
            0 <= i < args.len() && 0 <= j < args.len() && args[i] && args[j] ==> i == j
    }

    open spec fn of_not(&self, arg: bool) -> bool {
        !arg
    }

    fn eval(&self, ty: Type) -> (v: bool) {
        self.get(ty)
    }

    fn all(&self, args: &[bool]) -> (v: bool) {
        let mut i: usize = 0;
        while i < args.len()
            invariant
                i <= args@.len(),
                forall|k: int| 0 <= k < i ==> args@[k],
            decreases args@.len() - i,
        {
            if !args[i] {
                return false;
            }
            i += 1;
        }
        true
    }

    fn any(&self, args: &[bool]) -> (v: bool) {
        let mut i: usize = 0;
        while i < args.len()
            invariant
                i <= args@.len(),
                forall|k: int| 0 <= k < i ==> !args@[k],
            decreases args@.len() - i,
        {
            if args[i] {
                return true;
            }
            i += 1;
        }
        false
    }

    fn xor(&self, args: &[bool]) -> (v: bool) {
        let mut value = false;
        let ghost mut witness: int = 0;
        let mut i: usize = 0;
        while i < args.len()
            invariant
                i <= args@.len(),
                value ==> 0 <= witness < i && args@[witness],
                forall|k: int| 0 <= k < i && args@[k] ==> value && k == witness,
            decreases args@.len() - i,
        {
            let arg = args[i];
            if arg && value {
                assert(args@[witness] && args@[i as int]);
                return false;
            } else if arg {
                value = true;
                proof {
                    witness = i as int;
                }
            }
            i += 1;
        }
        value
    }

    fn not(&self, arg: bool) -> (v: bool) {
        !arg
    }
}

/// What a set of types makes of an expression is whether the expression
/// holds of the set.
pub proof fn lemma_value_holds(tree: Tree, set: &TypeSet)
    ensures
        tree.value(set) == tree.holds(set@),
        tree.asks(set) == tree.wf(),
    decreases tree,
{
    match tree {
        Tree::Type(ty) => {},
        Tree::Any(args) => {
            assert forall|i: int| 0 <= i < args@.len() implies (#[trigger] args@[i]).value(set)
                == args@[i].holds(set@) && args@[i].asks(set) == args@[i].wf() by {
                lemma_value_holds(args@[i], set);
            }
            let found = values(args@, set);
            if set.of_any(found) {
                let i = choose|i: int| 0 <= i < found.len() && found[i];
                assert(args@[i].holds(set@));
            }
            if tree.holds(set@) {
                let i = choose|i: int| 0 <= i < args@.len() && (#[trigger] args@[i]).holds(set@);
                assert(found[i]);
            }
        },
        Tree::All(args) => {
            assert forall|i: int| 0 <= i < args@.len() implies (#[trigger] args@[i]).value(set)
                == args@[i].holds(set@) && args@[i].asks(set) == args@[i].wf() by {
                lemma_value_holds(args@[i], set);
            }
            let found = values(args@, set);
            if set.of_all(found) {
                assert forall|i: int| 0 <= i < args@.len() implies (#[trigger] args@[i]).holds(
                    set@,
                ) by {
                    assert(found[i]);
                }
            }
            if tree.holds(set@) {
                assert forall|i: int| 0 <= i < found.len() implies found[i] by {
                    assert(args@[i].holds(set@));
                }
            }
        },
        Tree::Xor(args) => {
            assert forall|i: int| 0 <= i < args@.len() implies (#[trigger] args@[i]).value(set)
                == args@[i].holds(set@) && args@[i].asks(set) == args@[i].wf() by {
                lemma_value_holds(args@[i], set);
            }
            let found = values(args@, set);
            if set.of_xor(found) {
                let i = choose|i: int| 0 <= i < found.len() && found[i];
                assert(args@[i].holds(set@));
                assert forall|a: int, b: int|
                    0 <= a < args@.len() && 0 <= b < args@.len() && (#[trigger] args@[a]).holds(
                        set@,
                    ) && (#[trigger] args@[b]).holds(set@) implies a == b by {
                    assert(found[a] && found[b]);
                }
            }
            if tree.holds(set@) {
                let i = choose|i: int| 0 <= i < args@.len() && (#[trigger] args@[i]).holds(set@);
                assert(found[i]);
                assert forall|a: int, b: int|
                    0 <= a < found.len() && 0 <= b < found.len() && found[a]
                        && found[b] implies a == b by {
                    assert(args@[a].holds(set@) && args@[b].holds(set@));
                }
            }
        },
        Tree::Not(arg) => {
            lemma_value_holds(*arg, set);
        },
    }
}

/// What an expression says, apart from how it is held.
pub enum Expr {
    Type(u8),
    Any(Seq<Expr>),
    All(Seq<Expr>),
    Xor(Seq<Expr>),
    Not(Box<Expr>),
}

/// What each of the expressions says.
pub open spec fn views(trees: Seq<Tree>) -> Seq<Expr>
    decreases trees,
{
    Seq::new(
        trees.len(),
        |i: int|
            if 0 <= i < trees.len() {
                trees[i].view()
            } else {
                Expr::Type(0)
            },
    )
}

impl Tree {
    /// What the expression says.
    pub open spec fn view(self) -> Expr
        decreases self,
    {
        match self {
            Tree::Type(ty) => Expr::Type(ty.0),
            Tree::Any(args) => Expr::Any(views(args@)),
            Tree::All(args) => Expr::All(views(args@)),
            Tree::Xor(args) => Expr::Xor(views(args@)),
            Tree::Not(arg) => Expr::Not(Box::new(arg.view())),
        }
    }
}

/// A token of an expression as it is written.
#[derive(Clone, Copy, Debug, PartialEq, Eq, Structural)]
pub enum Token {
    Any,
    All,
    Xor,
    Not,
    OpenParen,
    CloseParen,
    Type(Type),
}

/// The arguments can be combined by `op`: there is one at least, and one
/// only where `op` negates.
pub open spec fn closable(op: Op, args: Seq<Expr>) -> bool {
    args.len() > 0 && (op == Op::Not ==> args.len() == 1)
}

/// The expression that combines the arguments by `op`: a single argument
/// stands for itself, unless it is negated.
pub open spec fn closed(op: Op, args: Seq<Expr>) -> Expr {
    match op {
        Op::Not => Expr::Not(Box::new(args[0])),
        Op::All => if args.len() == 1 {
            args[0]
        } else {
            Expr::All(args)
        },
        Op::Any => if args.len() == 1 {
            args[0]
        } else {
            Expr::Any(args)
        },
        Op::Xor => if args.len() == 1 {
            args[0]
        } else {
            Expr::Xor(args)
        },
    }
}

impl Op {
    /// The expression that combines the arguments by this operator.
    pub fn close_parse(&self, args: Vec<Tree>) -> (tree: Tree)
        requires
            closable(*self, views(args@)),
        ensures
            tree@ == closed(*self, views(args@)),
    {
        let mut args = args;
        let ghost all = args@;
        if args.len() == 1 {
            let only = args.pop().unwrap();
            assert(only@ == views(all)[0]);
            return match self {
                Op::Not => Tree::Not(Box::new(only)),
                _ => only,
            };
        }
        match self {
            Op::All => Tree::All(args),
            Op::Any => Tree::Any(args),
            Op::Xor => Tree::Xor(args),
            Op::Not => Tree::Not(Box::new(Tree::All(args))),
        }
    }
}

/// Where a reading of tokens stands: the operator whose arguments are being
/// read, those read so far, and the operators around it, each with the
/// arguments that it had when the next one started.
pub struct Reading {
    pub ty: Op,
    pub args: Seq<Expr>,
    pub stack: Seq<(Op, Seq<Expr>)>,
}

/// Where the reading stands after one more token; nowhere, if the token
/// closes what cannot be closed. An operator starts a list of arguments of
/// its own. An opening parenthesis says nothing. A closing one combines the
/// arguments read and hands the result to the operator around. A type is an
/// argument.
pub open spec fn read_token(r: Reading, token: Token) -> Option<Reading> {
    match token {
        Token::Any => Some(
            Reading { ty: Op::Any, args: Seq::empty(), stack: r.stack.push((r.ty, r.args)) },
        ),
        Token::All => Some(
            Reading { ty: Op::All, args: Seq::empty(), stack: r.stack.push((r.ty, r.args)) },
        ),
        Token::Xor => Some(
            Reading { ty: Op::Xor, args: Seq::empty(), stack: r.stack.push((r.ty, r.args)) },
        ),
        Token::Not => Some(
            Reading { ty: Op::Not, args: Seq::empty(), stack: r.stack.push((r.ty, r.args)) },
        ),
        Token::OpenParen => Some(r),
        Token::CloseParen => if r.stack.len() > 0 && closable(r.ty, r.args) {
            Some(
                Reading {
                    ty: r.stack.last().0,
                    args: r.stack.last().1.push(closed(r.ty, r.args)),
                    stack: r.stack.drop_last(),
                },
            )
        } else {
            None
        },
        Token::Type(ty) => Some(
            Reading { ty: r.ty, args: r.args.push(Expr::Type(ty.0)), stack: r.stack },
        ),
    }
}

/// Where the reading stands after the tokens, from a start at which all
/// arguments are to hold and none is read.
pub open spec fn read(tokens: Seq<Token>) -> Option<Reading>
    decreases tokens.len(),
{
    if tokens.len() == 0 {
        Some(Reading { ty: Op::All, args: Seq::empty(), stack: Seq::empty() })
    } else {
        match read(tokens.drop_last()) {
            Some(r) => read_token(r, tokens.last()),
            None => None,
        }
    }
}

/// The expression that the tokens spell; none where they close what cannot
/// be closed, or leave nothing to combine at the end.
pub open spec fn parsed(tokens: Seq<Token>) -> Option<Expr> {
    match read(tokens) {
        Some(r) => if closable(r.ty, r.args) {
            Some(closed(r.ty, r.args))
        } else {
            None
        },
        None => None,
    }
}

/// What the operators around hold, each with what its arguments say.
pub open spec fn stack_views(stack: Seq<(Op, Vec<Tree>)>) -> Seq<(Op, Seq<Expr>)> {
    Seq::new(stack.len(), |i: int| (stack[i].0, views(stack[i].1@)))
}

/// The expression that the tokens spell.
pub fn parse(tokens: &[Token]) -> (r: Result<Tree, Error>)
    ensures
        match r {
            Ok(tree) => parsed(tokens@) == Some(tree@),
            Err(e) => e == Error::InvalidExpression && parsed(tokens@) is None,
        },
{
    let mut ty = Op::All;
    let mut args: Vec<Tree> = Vec::new();
    let mut stack: Vec<(Op, Vec<Tree>)> = Vec::new();
    let mut i: usize = 0;
    proof {
        assert(tokens@.take(0) =~= Seq::<Token>::empty());
        assert(views(args@) =~= Seq::<Expr>::empty());
        assert(stack_views(stack@) =~= Seq::<(Op, Seq<Expr>)>::empty());
    }
    while i < tokens.len()
        invariant
            i <= tokens@.len(),
            read(tokens@.take(i as int)) == Some(
                Reading { ty, args: views(args@), stack: stack_views(stack@) },
            ),
        decreases tokens@.len() - i,
    {
        let token = tokens[i];
        let ghost before = Reading { ty, args: views(args@), stack: stack_views(stack@) };
        proof {
            assert(tokens@.take(i + 1).drop_last() =~= tokens@.take(i as int));
            assert(tokens@.take(i + 1).last() == token);
        }
        match token {
            Token::Any | Token::All | Token::Xor | Token::Not => {
                let op = match token {
                    Token::Any => Op::Any,
                    Token::All => Op::All,
                    Token::Xor => Op::Xor,
                    _ => Op::Not,
                };
                let mut held: Vec<Tree> = Vec::new();
                core::mem::swap(&mut held, &mut args);
                proof {
                    assert(stack_views(stack@.push((ty, held))) =~= stack_views(stack@).push(
                        (ty, views(held@)),
                    ));
                    assert(views(args@) =~= Seq::<Expr>::empty());
                }
                stack.push((ty, held));
                ty = op;
            },
            Token::OpenParen => {},
            Token::CloseParen => {
                if stack.len() == 0 || args.len() == 0 || (ty == Op::Not && args.len() != 1) {
                    proof {
                        assert(read_token(before, token) is None);
                        lemma_read_fails(tokens@, i + 1);
                    }
                    return Err(Error::InvalidExpression);
                }
                let ghost outer = stack@;
                let (prev_ty, prev_args) = stack.pop().unwrap();
                let mut current: Vec<Tree> = prev_args;
                core::mem::swap(&mut current, &mut args);
                let ghost had = args@;
                let tree = ty.close_parse(current);
                proof {
                    assert(views(had.push(tree)) =~= views(had).push(tree@));
                    assert(stack_views(outer).last() == (prev_ty, views(had)));
                    assert(stack_views(stack@) =~= stack_views(outer).drop_last());
                }
                args.push(tree);
                ty = prev_ty;
            },
            Token::Type(t) => {
                proof {
                    assert(views(args@.push(Tree::Type(t))) =~= views(args@).push(
                        Expr::Type(t.0),
                    ));
                }
                args.push(Tree::Type(t));
            },
        }
        i += 1;
    }
    proof {
        assert(tokens@.take(i as int) =~= tokens@);
    }
    if args.len() == 0 || (ty == Op::Not && args.len() != 1) {
        return Err(Error::InvalidExpression);
    }
    Ok(ty.close_parse(args))
}

/// Once a reading has failed, it stays failed whatever follows.
proof fn lemma_read_fails(tokens: Seq<Token>, n: int)
    requires
        0 <= n <= tokens.len(),
        read(tokens.take(n)) is None,
    ensures
        read(tokens) is None,
    decreases tokens.len() - n,
{
    if n == tokens.len() {
        assert(tokens.take(n) =~= tokens);
    } else {
        assert(tokens.take(n + 1).drop_last() =~= tokens.take(n));
        lemma_read_fails(tokens, n + 1);
    }
}

/// A word of an expression as it is written.
#[derive(Clone, Debug, PartialEq, Eq)]
pub enum Word {
    Any,
    All,
    Xor,
    Not,
    OpenParen,
    CloseParen,
    /// The name of a type.
    Type(String),
}

/// What a word says.
pub enum WordView {
    Any,
    All,
    Xor,
    Not,
    OpenParen,
    CloseParen,
    Type(Seq<char>),
}

impl Word {
    /// What the word says.
    pub open spec fn view(&self) -> WordView {
        match self {
            Word::Any => WordView::Any,
            Word::All => WordView::All,
            Word::Xor => WordView::Xor,
            Word::Not => WordView::Not,
            Word::OpenParen => WordView::OpenParen,
            Word::CloseParen => WordView::CloseParen,
            Word::Type(name) => WordView::Type(name@),
        }
    }
}

/// `c` can stand in the name of a type: a letter, a digit, an underscore or
/// a hyphen.
pub open spec fn in_name(c: char) -> bool {
    alphanumeric(c) || c == '_' || c == '-'
}

/// The number of characters that can stand in a name with which `s` starts.
pub open spec fn name_len(s: Seq<char>) -> nat
    decreases s.len(),
{
    if s.len() > 0 && in_name(s.first()) {
        1 + name_len(s.drop_first())
    } else {
        0
    }
}

/// Where the first `k` characters of a text can stand in a name, the text
/// starts with a name of that length and of what follows.
proof fn lemma_name_len_skip(s: Seq<char>, k: int)
    requires
        0 <= k <= s.len(),
        forall|i: int| 0 <= i < k ==> in_name(s[i]),
    ensures
        name_len(s) == k + name_len(s.skip(k)),
    decreases k,
{
    if k == 0 {
        assert(s.skip(0) =~= s);
    } else {
        assert(s.drop_first().skip(k - 1) =~= s.skip(k));
        lemma_name_len_skip(s.drop_first(), k - 1);
    }
}

/// The first word of a text, behind its white space, and what follows the
/// word: a parenthesis; one of `ANY`, `ALL`, `XOR` and `NOT`, also where a
/// name goes on behind it; or else a name as far as it reaches. `None` stands
/// for a text that starts with what is neither.
pub open spec fn first_word(s: Seq<char>) -> Option<(WordView, Seq<char>)> {
    let t = trimmed_start(s);
    if is_prefix("("@, t) {
        Some((WordView::OpenParen, t.skip("("@.len() as int)))
    } else if is_prefix(")"@, t) {
        Some((WordView::CloseParen, t.skip(")"@.len() as int)))
    } else if is_prefix("ANY"@, t) {
        Some((WordView::Any, t.skip("ANY"@.len() as int)))
    } else if is_prefix("ALL"@, t) {
        Some((WordView::All, t.skip("ALL"@.len() as int)))
    } else if is_prefix("XOR"@, t) {
        Some((WordView::Xor, t.skip("XOR"@.len() as int)))
    } else if is_prefix("NOT"@, t) {
        Some((WordView::Not, t.skip("NOT"@.len() as int)))
    } else if name_len(t) > 0 {
        Some((WordView::Type(t.take(name_len(t) as int)), t.skip(name_len(t) as int)))
    } else {
        None
    }
}

/// The words of an expression, one after the other.
#[derive(Clone, Debug)]
pub struct TokenIter<'a> {
    pub cursor: &'a str,
}

impl<'a> TokenIter<'a> {
    /// The words of `content`, from its start on.
    pub fn new(content: &'a str) -> (it: Self)
        ensures
            it.cursor == content,
    {
        TokenIter { cursor: content }
    }

    /// The next word; none when only white space is left. A text that goes
    /// on with what is no word is refused, and the cursor stays before it.
    pub fn next(&mut self) -> (r: Result<Option<Word>, Error>)
        ensures
            match r {
                Ok(None) => trimmed_start(old(self).cursor@).len() == 0 && final(self).cursor@
                    == trimmed_start(old(self).cursor@),
                Ok(Some(word)) => trimmed_start(old(self).cursor@).len() > 0 && first_word(
                    old(self).cursor@,
                ) == Some((word@, final(self).cursor@)),
                Err(e) => e == Error::InvalidExpression && trimmed_start(old(self).cursor@).len()
                    > 0 && first_word(old(self).cursor@) is None && final(self).cursor@
                    == trimmed_start(old(self).cursor@),
            },
    {
        let cursor = trim_start(self.cursor);
        self.cursor = cursor;
        let n = cursor.unicode_len();
        if n == 0 {
            return Ok(None);
        }
        match strip_prefix(cursor, "(") {
            Some(other) => {
                self.cursor = other;
                return Ok(Some(Word::OpenParen));
            },
            None => {},
        }
        match strip_prefix(cursor, ")") {
            Some(other) => {
                self.cursor = other;
                return Ok(Some(Word::CloseParen));
            },
            None => {},
        }
        match strip_prefix(cursor, "ANY") {
            Some(other) => {
                self.cursor = other;
                return Ok(Some(Word::Any));
            },
            None => {},
        }
        match strip_prefix(cursor, "ALL") {
            Some(other) => {
                self.cursor = other;
                return Ok(Some(Word::All));
            },
            None => {},
        }
        match strip_prefix(cursor, "XOR") {
            Some(other) => {
                self.cursor = other;
                return Ok(Some(Word::Xor));
            },
            None => {},
        }
        match strip_prefix(cursor, "NOT") {
            Some(other) => {
                self.cursor = other;
                return Ok(Some(Word::Not));
            },
            None => {},
        }
        let mut k: usize = 0;
        while k < n && TokenIter::names(cursor.get_char(k))
            invariant
                k <= n,
                n == cursor@.len(),
                forall|i: int| 0 <= i < k ==> in_name(cursor@[i]),
            decreases n - k,
        {
            k += 1;
        }
        proof {
            lemma_name_len_skip(cursor@, k as int);
            assert(name_len(cursor@.skip(k as int)) == 0);
            assert(cursor@.subrange(0, k as int) =~= cursor@.take(k as int));
            assert(cursor@.subrange(k as int, n as int) =~= cursor@.skip(k as int));
        }
        if k == 0 {
            return Err(Error::InvalidExpression);
        }
        let token = cursor.substring_char(0, k);
        self.cursor = cursor.substring_char(k, n);
        Ok(Some(Word::Type(token.to_owned())))
    }

    /// Whether `c` can stand in the name of a type.
    fn names(c: char) -> (b: bool)
        ensures
            b == in_name(c),
    {
        is_alphanumeric(c) || c == '_' || c == '-'
    }
}

} // verus!
