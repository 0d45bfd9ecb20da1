//! The optimizer: the flat, scope-delimited statement list becomes a flat
//! instruction stream in which every block carries its size.
use vstd::prelude::*;
use crate::parser::ParseExpr;

verus! {

/// One instruction. `size` and `scope_size` count the instructions that
/// follow and form the body.
#[derive(Debug, Copy, Clone, PartialEq, Eq, Structural)]
pub enum Instruction {
    If { cond: usize, size: usize },
    Else { cond: Option<usize>, size: usize },
    For { data: usize, binding: usize, size: usize },
    LoadText(usize),
    LoadAttribute { key: usize, value: usize },
    Node { ident: usize, scope_size: usize },
    View(usize),
}

/// An `if`, `else` or `for` statement.
pub open spec fn is_head(e: ParseExpr) -> bool {
    e is If || e is Else || e is For
}

/// A statement that loads a text or an attribute.
pub open spec fn is_load(e: ParseExpr) -> bool {
    e is LoadText || e is LoadAttribute
}

/// The statement at `i` is the start of a scope.
pub open spec fn opens_at(input: Seq<ParseExpr>, i: int) -> bool {
    0 <= i < input.len() && input[i] is ScopeStart
}

/// The list from `i` on without the heads that no scope follows.
pub open spec fn drop_empty_from(input: Seq<ParseExpr>, i: int) -> Seq<ParseExpr>
    decreases input.len() - i,
{
    if i < 0 || i >= input.len() {
        Seq::empty()
    } else if is_head(input[i]) && !opens_at(input, i + 1) {
        drop_empty_from(input, i + 1)
    } else {
        seq![input[i]] + drop_empty_from(input, i + 1)
    }
}

/// The list without the `if`, `else` and `for` heads that no scope follows.
pub open spec fn drop_empty(input: Seq<ParseExpr>) -> Seq<ParseExpr> {
    drop_empty_from(input, 0)
}

/// The position of the `ScopeEnd` that closes the innermost of `depth` open
/// scopes, searched from `pos` on; the length of the list if there is none.
pub open spec fn matching_end(input: Seq<ParseExpr>, pos: int, depth: nat) -> int
    decreases input.len() - pos,
{
    if pos < 0 || pos >= input.len() {
        input.len() as int
    } else {
        match input[pos] {
            ParseExpr::ScopeStart => matching_end(input, pos + 1, depth + 1),
            ParseExpr::ScopeEnd => if depth <= 1 {
                pos
            } else {
                matching_end(input, pos + 1, (depth - 1) as nat)
            },
            _ => matching_end(input, pos + 1, depth),
        }
    }
}

pub proof fn lemma_matching_end(input: Seq<ParseExpr>, pos: int, depth: nat)
    requires
        0 <= pos <= input.len(),
    ensures
        pos <= matching_end(input, pos, depth) <= input.len(),
        matching_end(input, pos, depth) < input.len() ==> input[matching_end(
            input,
            pos,
            depth,
        )] is ScopeEnd,
    decreases input.len() - pos,
{
    if pos < input.len() {
        match input[pos] {
            ParseExpr::ScopeStart => lemma_matching_end(input, pos + 1, depth + 1),
            ParseExpr::ScopeEnd => if depth > 1 {
                lemma_matching_end(input, pos + 1, (depth - 1) as nat)
            },
            _ => lemma_matching_end(input, pos + 1, depth),
        }
    }
}

/// Where a scope lies: its statements are `input[from..to]`, and the list
/// goes on at `next`.
pub struct Span {
    pub from: int,
    pub to: int,
    pub next: int,
}

/// The scope that starts at `pos`, if one does; the empty span at `pos`
/// if none does.
pub open spec fn scope_at(input: Seq<ParseExpr>, pos: int) -> Span {
    if opens_at(input, pos) {
        let close = matching_end(input, pos + 1, 1);
        Span {
            from: pos + 1,
            to: close,
            next: if close < input.len() {
                close + 1
            } else {
                close
            },
        }
    } else {
        Span { from: pos, to: pos, next: pos }
    }
}

pub proof fn lemma_scope_at(input: Seq<ParseExpr>, pos: int)
    requires
        0 <= pos <= input.len(),
    ensures
        pos <= scope_at(input, pos).from <= scope_at(input, pos).to <= scope_at(input, pos).next
            <= input.len(),
        opens_at(input, pos) ==> pos < scope_at(input, pos).from,
{
    if opens_at(input, pos) {
        lemma_matching_end(input, pos + 1, 1);
    }
}

/// The end of the run of loads that starts at `pos`.
pub open spec fn loads_end(input: Seq<ParseExpr>, pos: int) -> int
    decreases input.len() - pos,
{
    if 0 <= pos < input.len() && is_load(input[pos]) {
        loads_end(input, pos + 1)
    } else {
        pos
    }
}

pub proof fn lemma_loads_end(input: Seq<ParseExpr>, pos: int)
    requires
        0 <= pos <= input.len(),
    ensures
        pos <= loads_end(input, pos) <= input.len(),
        forall|j: int| pos <= j < loads_end(input, pos) ==> is_load(input[j]),
    decreases input.len() - pos,
{
    if pos < input.len() && is_load(input[pos]) {
        lemma_loads_end(input, pos + 1);
    }
}

/// The instruction that a load statement becomes.
pub open spec fn load_of(e: ParseExpr) -> Instruction {
    match e {
        ParseExpr::LoadAttribute { key, value } => Instruction::LoadAttribute { key, value },
        ParseExpr::LoadText(text) => Instruction::LoadText(text),
        _ => Instruction::LoadText(0),
    }
}

/// The instructions that a run of load statements becomes.
pub open spec fn load_instructions(statements: Seq<ParseExpr>) -> Seq<Instruction> {
    Seq::new(statements.len(), |i: int| load_of(statements[i]))
}

/// The loads in `input[from..to]` as instructions.
pub open spec fn loads(input: Seq<ParseExpr>, from: int, to: int) -> Seq<Instruction> {
    load_instructions(input.subrange(from, to))
}

/// A statement with what belongs to it: the tree that the scopes draw.
pub enum Item {
    If { cond: usize, body: Seq<Item> },
    Else { cond: Option<usize>, body: Seq<Item> },
    For { data: usize, binding: usize, body: Seq<Item> },
    /// A node, the load statements that follow it, and the items of its
    /// scope.
    Node { ident: usize, prefix: Seq<ParseExpr>, body: Seq<Item> },
    /// A load statement that follows no node.
    Load(ParseExpr),
    View(usize),
}

/// The instructions of one item: a head is followed by its body and carries
/// the body's size; a node comes behind its loads.
pub open spec fn flat(item: Item) -> Seq<Instruction>
    decreases item, 0int,
{
    match item {
        Item::If { cond, body } => seq![
            Instruction::If { cond, size: flatten(body).len() as usize },
        ] + flatten(body),
        Item::Else { cond, body } => seq![
            Instruction::Else { cond, size: flatten(body).len() as usize },
        ] + flatten(body),
        Item::For { data, binding, body } => seq![
            Instruction::For { data, binding, size: flatten(body).len() as usize },
        ] + flatten(body),
        Item::Node { ident, prefix, body } => load_instructions(prefix) + seq![
            Instruction::Node { ident, scope_size: flatten(body).len() as usize },
        ] + flatten(body),
        Item::Load(load) => seq![load_of(load)],
        Item::View(id) => seq![Instruction::View(id)],
    }
}

/// The instructions of a list of items, one item after the other.
pub open spec fn flatten(items: Seq<Item>) -> Seq<Instruction>
    decreases items, 1int,
{
    if items.len() == 0 {
        Seq::empty()
    } else {
        flatten(items.drop_last()) + flat(items.last())
    }
}

/// An `if` whose body holds no instruction.
pub open spec fn is_empty_if(item: Item) -> bool {
    item is If && flatten(item->If_body).len() == 0
}

/// An `else` whose body holds no instruction.
pub open spec fn is_empty_else(item: Item) -> bool {
    item is Else && flatten(item->Else_body).len() == 0
}

/// `acc` with `item` behind it; an empty `else` that follows an empty `if`
/// takes that `if` away and is left out itself.
pub open spec fn push_item(acc: Seq<Item>, item: Item) -> Seq<Item> {
    if is_empty_else(item) && acc.len() > 0 && is_empty_if(acc.last()) {
        acc.drop_last()
    } else {
        acc.push(item)
    }
}

/// The items that the statements from `pos` on make, behind those in `acc`.
/// A scope is read up to its matching end and makes the body of the head
/// or node before it.
pub open spec fn items_of(input: Seq<ParseExpr>, pos: int, acc: Seq<Item>) -> Seq<Item>
    decreases input.len() - pos,
{
    if pos < 0 || pos >= input.len() {
        acc
    } else {
        match input[pos] {
            ParseExpr::If(cond) => {
                let span = scope_at(input, pos + 1);
                proof {
                    lemma_scope_at(input, pos + 1);
                }
                let body = items_of(input.subrange(span.from, span.to), 0, Seq::empty());
                items_of(input, span.next, push_item(acc, Item::If { cond, body }))
            },
            ParseExpr::Else(cond) => {
                let span = scope_at(input, pos + 1);
                proof {
                    lemma_scope_at(input, pos + 1);
                }
                let body = items_of(input.subrange(span.from, span.to), 0, Seq::empty());
                items_of(input, span.next, push_item(acc, Item::Else { cond, body }))
            },
            ParseExpr::For { data, binding } => {
                let span = scope_at(input, pos + 1);
                proof {
                    lemma_scope_at(input, pos + 1);
                }
                let body = items_of(input.subrange(span.from, span.to), 0, Seq::empty());
                items_of(input, span.next, push_item(acc, Item::For { data, binding, body }))
            },
            ParseExpr::Node(ident) => {
                let prefix_end = loads_end(input, pos + 1);
                let span = scope_at(input, prefix_end);
                proof {
                    lemma_loads_end(input, pos + 1);
                    lemma_scope_at(input, prefix_end);
                }
                let body = items_of(input.subrange(span.from, span.to), 0, Seq::empty());
                items_of(
                    input,
                    span.next,
                    push_item(
                        acc,
                        Item::Node { ident, prefix: input.subrange(pos + 1, prefix_end), body },
                    ),
                )
            },
            ParseExpr::LoadText(_) | ParseExpr::LoadAttribute { .. } => items_of(
                input,
                pos + 1,
                push_item(acc, Item::Load(input[pos])),
            ),
            ParseExpr::View(id) => items_of(input, pos + 1, push_item(acc, Item::View(id))),
            ParseExpr::Eof | ParseExpr::ScopeStart | ParseExpr::ScopeEnd => items_of(
                input,
                pos + 1,
                acc,
            ),
        }
    }
}

/// The tree of a statement list whose empty heads are gone.
pub open spec fn tree(input: Seq<ParseExpr>) -> Seq<Item> {
    items_of(input, 0, Seq::empty())
}

/// The instruction stream of a statement list.
pub open spec fn optimize_spec(input: Seq<ParseExpr>) -> Seq<Instruction> {
    flatten(tree(drop_empty(input)))
}

/// The number of instructions in the body of `i`, if it has one.
pub open spec fn block_size(i: Instruction) -> Option<usize> {
    match i {
        Instruction::If { size, .. } => Some(size),
        Instruction::Else { size, .. } => Some(size),
        Instruction::For { size, .. } => Some(size),
        Instruction::Node { scope_size, .. } => Some(scope_size),
        _ => None,
    }
}

/// Every instruction that carries a size is followed by that many
/// instructions, which again form such a stream, and so does what comes
/// behind them.
pub open spec fn well_sized(stream: Seq<Instruction>) -> bool
    decreases stream.len(),
{
    if stream.len() == 0 {
        true
    } else {
        match block_size(stream[0]) {
            Some(n) => 1 + n <= stream.len() && well_sized(stream.subrange(1, 1 + n))
                && well_sized(stream.subrange(1 + n, stream.len() as int)),
            None => well_sized(stream.drop_first()),
        }
    }
}

/// Two well sized streams, one behind the other, are well sized.
pub proof fn lemma_well_sized_concat(a: Seq<Instruction>, b: Seq<Instruction>)
    requires
        well_sized(a),
        well_sized(b),
    ensures
        well_sized(a + b),
    decreases a.len(),
{
    if a.len() == 0 {
        assert(a + b =~= b);
    } else {
        match block_size(a[0]) {
            Some(n) => {
                assert((a + b).subrange(1, 1 + n) =~= a.subrange(1, 1 + n));
                lemma_well_sized_concat(a.subrange(1 + n, a.len() as int), b);
                assert((a + b).subrange(1 + n, (a + b).len() as int) =~= a.subrange(
                    1 + n,
                    a.len() as int,
                ) + b);
            },
            None => {
                lemma_well_sized_concat(a.drop_first(), b);
                assert((a + b).drop_first() =~= a.drop_first() + b);
            },
        }
    }
}

/// Loads are well sized.
pub proof fn lemma_loads_well_sized(statements: Seq<ParseExpr>)
    ensures
        well_sized(load_instructions(statements)),
    decreases statements.len(),
{
    let s = load_instructions(statements);
    if s.len() > 0 {
        lemma_loads_well_sized(statements.drop_first());
        assert(s.drop_first() =~= load_instructions(statements.drop_first()));
    }
}

/// A head with a well sized body behind it is well sized.
proof fn lemma_block_well_sized(head: Instruction, body: Seq<Instruction>)
    requires
        well_sized(body),
        block_size(head) == Some(body.len() as usize),
        body.len() <= usize::MAX,
    ensures
        well_sized(seq![head] + body),
{
    let s = seq![head] + body;
    let n = body.len() as int;
    assert(s[0] == head);
    assert(body.len() as usize == n);
    assert(s.subrange(1, 1 + n) =~= body);
    assert(s.subrange(1 + n, s.len() as int) =~= Seq::<Instruction>::empty());
    assert(well_sized(Seq::<Instruction>::empty()));
}

/// The instructions of an item are well sized, as long as there are no
/// more of them than a size can count.
pub proof fn lemma_flat_well_sized(item: Item)
    requires
        flat(item).len() <= usize::MAX,
    ensures
        well_sized(flat(item)),
    decreases item, 0int,
{
    match item {
        Item::If { cond, body } => {
            lemma_flatten_well_sized(body);
            lemma_block_well_sized(
                Instruction::If { cond, size: flatten(body).len() as usize },
                flatten(body),
            );
        },
        Item::Else { cond, body } => {
            lemma_flatten_well_sized(body);
            lemma_block_well_sized(
                Instruction::Else { cond, size: flatten(body).len() as usize },
                flatten(body),
            );
        },
        Item::For { data, binding, body } => {
            lemma_flatten_well_sized(body);
            lemma_block_well_sized(
                Instruction::For { data, binding, size: flatten(body).len() as usize },
                flatten(body),
            );
        },
        Item::Node { ident, prefix, body } => {
            lemma_flatten_well_sized(body);
            let node = Instruction::Node { ident, scope_size: flatten(body).len() as usize };
            lemma_block_well_sized(node, flatten(body));
            lemma_loads_well_sized(prefix);
            lemma_well_sized_concat(load_instructions(prefix), seq![node] + flatten(body));
            assert(flat(item) =~= load_instructions(prefix) + (seq![node] + flatten(body)));
        },
        Item::Load(load) => {
            assert(flat(item).drop_first() =~= Seq::<Instruction>::empty());
            assert(well_sized(Seq::<Instruction>::empty()));
            assert(block_size(flat(item)[0]) is None);
        },
        Item::View(id) => {
            assert(flat(item).drop_first() =~= Seq::<Instruction>::empty());
            assert(well_sized(Seq::<Instruction>::empty()));
            assert(block_size(flat(item)[0]) is None);
        },
    }
}

/// The instructions of a list of items are well sized, as long as there
/// are no more of them than a size can count.
pub proof fn lemma_flatten_well_sized(items: Seq<Item>)
    requires
        flatten(items).len() <= usize::MAX,
    ensures
        well_sized(flatten(items)),
    decreases items, 1int,
{
    if items.len() > 0 {
        lemma_flatten_well_sized(items.drop_last());
        lemma_flat_well_sized(items.last());
        lemma_well_sized_concat(flatten(items.drop_last()), flat(items.last()));
    }
}

/// The statements of `a` from `i` on are those of `b` from `j` on: then so
/// is what is left of them without the empty heads.
proof fn lemma_drop_empty_shift(a: Seq<ParseExpr>, i: int, b: Seq<ParseExpr>, j: int)
    requires
        0 <= i <= a.len(),
        0 <= j <= b.len(),
        a.skip(i) == b.skip(j),
    ensures
        drop_empty_from(a, i) == drop_empty_from(b, j),
    decreases a.len() - i,
{
    assert(a.skip(i).len() == a.len() - i);
    assert(b.skip(j).len() == b.len() - j);
    if i < a.len() {
        assert(a[i] == a.skip(i)[0]);
        assert(b[j] == b.skip(j)[0]);
        if i + 1 < a.len() {
            assert(a[i + 1] == a.skip(i)[1]);
            assert(b[j + 1] == b.skip(j)[1]);
        }
        assert(a.skip(i + 1) =~= a.skip(i).skip(1));
        assert(b.skip(j + 1) =~= b.skip(j).skip(1));
        lemma_drop_empty_shift(a, i + 1, b, j + 1);
    }
}

proof fn lemma_drop_empty_removed(input: Seq<ParseExpr>, i: int, j: int)
    requires
        0 <= j <= i < input.len(),
        is_head(input[i]),
        !opens_at(input, i + 1),
    ensures
        drop_empty_from(input.remove(i), j) == drop_empty_from(input, j),
    decreases i - j,
{
    let removed = input.remove(i);
    if j == i {
        assert(removed.skip(i) =~= input.skip(i + 1));
        lemma_drop_empty_shift(removed, i, input, i + 1);
    } else {
        lemma_drop_empty_removed(input, i, j + 1);
        assert(removed[j] == input[j]);
        if j + 1 < i {
            assert(removed[j + 1] == input[j + 1]);
        } else if i < removed.len() {
            assert(removed[i] == input[i + 1]);
        }
    }
}

/// An `if`, `else` or `for` that no scope follows leaves no trace: the
/// instruction stream is the one of the list without that statement.
pub proof fn lemma_empty_head_is_absent(input: Seq<ParseExpr>, i: int)
    requires
        0 <= i < input.len(),
        is_head(input[i]),
        !opens_at(input, i + 1),
    ensures
        optimize_spec(input) == optimize_spec(input.remove(i)),
{
    lemma_drop_empty_removed(input, i, 0);
}

/// Behind the first pass every `if`, `else` and `for` is followed by its
/// scope.
pub proof fn lemma_heads_are_scoped(input: Seq<ParseExpr>, from: int, k: int)
    requires
        0 <= from <= input.len(),
        0 <= k < drop_empty_from(input, from).len(),
        is_head(drop_empty_from(input, from)[k]),
    ensures
        opens_at(drop_empty_from(input, from), k + 1),
    decreases input.len() - from,
{
    let kept = drop_empty_from(input, from);
    let rest = drop_empty_from(input, from + 1);
    if is_head(input[from]) && !opens_at(input, from + 1) {
        lemma_heads_are_scoped(input, from + 1, k);
    } else {
        assert(kept =~= seq![input[from]] + rest);
        if k == 0 {
            assert(opens_at(input, from + 1));
            assert(rest =~= seq![input[from + 1]] + drop_empty_from(input, from + 2));
        } else {
            lemma_heads_are_scoped(input, from + 1, k - 1);
        }
    }
}

/// What the last statement allows to follow.
#[derive(Debug, Copy, Clone, PartialEq, Eq, Structural)]
pub enum Opener {
    /// No scope may start here.
    Closed,
    /// An `if`, `else` or `for` was just read: its scope may start.
    Head,
    /// A node and maybe some of its loads were read: more loads may follow,
    /// or its scope may start.
    Node,
}

/// How far the scopes of a statement list are open, and what may follow.
pub struct ScopeState {
    pub depth: nat,
    pub opener: Opener,
}

/// The state behind one more statement; `None` where the statement may not
/// stand: a scope that starts behind neither a head nor a node with its
/// loads, or a scope end with no scope open.
pub open spec fn scope_step(state: ScopeState, e: ParseExpr) -> Option<ScopeState> {
    match e {
        ParseExpr::ScopeStart => if state.opener == Opener::Closed {
            None
        } else {
            Some(ScopeState { depth: state.depth + 1, opener: Opener::Closed })
        },
        ParseExpr::ScopeEnd => if state.depth == 0 {
            None
        } else {
            Some(ScopeState { depth: (state.depth - 1) as nat, opener: Opener::Closed })
        },
        ParseExpr::If(_) | ParseExpr::Else(_) | ParseExpr::For { .. } => Some(
            ScopeState { depth: state.depth, opener: Opener::Head },
        ),
        ParseExpr::Node(_) => Some(ScopeState { depth: state.depth, opener: Opener::Node }),
        ParseExpr::LoadText(_) | ParseExpr::LoadAttribute { .. } => Some(
            ScopeState {
                depth: state.depth,
                opener: if state.opener == Opener::Node {
                    Opener::Node
                } else {
                    Opener::Closed
                },
            },
        ),
        ParseExpr::View(_) | ParseExpr::Eof => Some(
            ScopeState { depth: state.depth, opener: Opener::Closed },
        ),
    }
}

/// The state behind the first `n` statements.
pub open spec fn scan_scopes(input: Seq<ParseExpr>, n: int) -> Option<ScopeState>
    decreases n,
{
    if n <= 0 {
        Some(ScopeState { depth: 0, opener: Opener::Closed })
    } else {
        match scan_scopes(input, n - 1) {
            Some(state) => scope_step(state, input[n - 1]),
            None => None,
        }
    }
}

/// Every scope starts right behind a head, or behind a node and its loads,
/// and every scope that starts also ends.
pub open spec fn well_scoped(input: Seq<ParseExpr>) -> bool {
    match scan_scopes(input, input.len() as int) {
        Some(state) => state.depth == 0,
        None => false,
    }
}

/// Tells whether a statement list is well scoped.
pub fn is_well_scoped(input: &Vec<ParseExpr>) -> (b: bool)
    ensures
        b == well_scoped(input@),
{
    let mut depth: usize = 0;
    let mut opener = Opener::Closed;
    let mut n: usize = 0;
    while n < input.len()
        invariant
            n <= input.len(),
            depth <= n,
            scan_scopes(input@, n as int) == Some(ScopeState { depth: depth as nat, opener }),
        decreases input.len() - n,
    {
        match input[n] {
            ParseExpr::ScopeStart => {
                if opener == Opener::Closed {
                    proof {
                        lemma_scan_fails(input@, n + 1, input.len() as int);
                    }
                    return false;
                }
                depth += 1;
                opener = Opener::Closed;
            },
            ParseExpr::ScopeEnd => {
                if depth == 0 {
                    proof {
                        lemma_scan_fails(input@, n + 1, input.len() as int);
                    }
                    return false;
                }
                depth -= 1;
                opener = Opener::Closed;
            },
            ParseExpr::If(_) | ParseExpr::Else(_) | ParseExpr::For { .. } => {
                opener = Opener::Head;
            },
            ParseExpr::Node(_) => {
                opener = Opener::Node;
            },
            ParseExpr::LoadText(_) | ParseExpr::LoadAttribute { .. } => {
                if opener != Opener::Node {
                    opener = Opener::Closed;
                }
            },
            ParseExpr::View(_) | ParseExpr::Eof => {
                opener = Opener::Closed;
            },
        }
        n += 1;
    }
    depth == 0
}

/// Once the scan has failed, it stays failed.
pub proof fn lemma_scan_fails(input: Seq<ParseExpr>, n: int, m: int)
    requires
        n <= m,
        scan_scopes(input, n) is None,
    ensures
        scan_scopes(input, m) is None,
    decreases m - n,
{
    if n < m {
        lemma_scan_fails(input, n, m - 1);
    }
}

/// The number of empty `if` items at the end of `items`.
pub open spec fn trailing_ifs(items: Seq<Item>) -> nat
    decreases items.len(),
{
    if items.len() > 0 && is_empty_if(items.last()) {
        1 + trailing_ifs(items.drop_last())
    } else {
        0
    }
}

proof fn lemma_flatten_push(items: Seq<Item>, item: Item)
    ensures
        flatten(items.push(item)) == flatten(items) + flat(item),
        trailing_ifs(items.push(item)) == if is_empty_if(item) {
            1 + trailing_ifs(items)
        } else {
            0
        },
{
    assert(items.push(item).drop_last() =~= items);
}

enum ControlFlow {
    If(usize),
    Else(Option<usize>),
}

fn is_load_statement(e: ParseExpr) -> (b: bool)
    ensures
        b == is_load(e),
{
    match e {
        ParseExpr::LoadText(_) | ParseExpr::LoadAttribute { .. } => true,
        _ => false,
    }
}

pub struct Optimizer {
    output: Vec<Instruction>,
    input: Vec<ParseExpr>,
    ep: usize,
    /// How many empty `if` instructions end the output as items of their own.
    trailing: usize,
    items: Ghost<Seq<Item>>,
}

impl Optimizer {
    /// The statements to optimize.
    pub closed spec fn input(&self) -> Seq<ParseExpr> {
        self.input@
    }

    /// Nothing was read and nothing was written yet.
    pub closed spec fn fresh(&self) -> bool {
        &&& self.ep == 0
        &&& self.trailing == 0
        &&& self.output@ == Seq::<Instruction>::empty()
        &&& self.items@ == Seq::<Item>::empty()
    }

    /// The output holds the instructions of the items read so far.
    spec fn inv(&self) -> bool {
        &&& self.ep <= self.input.len()
        &&& self.trailing <= self.ep
        &&& self.trailing == trailing_ifs(self.items@)
        &&& self.output@ == flatten(self.items@)
    }

    pub fn new(input: Vec<ParseExpr>) -> (o: Self)
        ensures
            o.input() == input@,
            o.fresh(),
    {
        Self { output: Vec::new(), input, ep: 0, trailing: 0, items: Ghost(Seq::empty()) }
    }

    /// Turns the statement list into the instruction stream:
    ///
    /// * an `if`, `else` or `for` that no scope follows is dropped;
    /// * a scope becomes the body of the statement before it, which carries
    ///   the number of instructions in it;
    /// * a node is written behind the loads that follow it;
    /// * an `else` with an empty body behind an `if` with an empty body is
    ///   dropped together with that `if`.
    pub fn optimize(self) -> (r: Vec<Instruction>)
        requires
            self.fresh(),
            well_scoped(self.input()),
        ensures
            r@ == optimize_spec(self.input()),
            well_sized(r@),
    {
        let mut optimizer = self;
        optimizer.remove_empty_if_else_for();
        optimizer.collapse();
        proof {
            assert(optimizer.output@.len() == optimizer.output.len());
            lemma_flatten_well_sized(tree(drop_empty(self.input@)));
        }
        optimizer.output
    }

    /// Writes the instructions of the whole input behind the output.
    fn collapse(&mut self)
        requires
            old(self).fresh(),
        ensures
            final(self).output@ == flatten(tree(old(self).input@)),
        decreases old(self).input.len(), 3int,
    {
        let ghost input = self.input@;
        while self.ep < self.input.len()
            invariant
                self.inv(),
                self.input@ == input,
                input == old(self).input@,
                items_of(input, self.ep as int, self.items@) == tree(input),
            decreases self.input.len() - self.ep,
        {
            let in_expr = self.input[self.ep];
            self.ep += 1;
            match in_expr {
                ParseExpr::If(cond) => {
                    self.opt_control_flow(ControlFlow::If(cond));
                },
                ParseExpr::Else(cond) => {
                    self.opt_control_flow(ControlFlow::Else(cond));
                },
                ParseExpr::For { data, binding } => {
                    self.opt_for(data, binding);
                },
                ParseExpr::Node(ident) => {
                    self.opt_node(ident);
                },
                ParseExpr::LoadText(index) => {
                    proof {
                        lemma_flatten_push(self.items@, Item::Load(in_expr));
                    }
                    self.output.push(Instruction::LoadText(index));
                    self.items = Ghost(self.items@.push(Item::Load(in_expr)));
                    self.trailing = 0;
                    assert(self.output@ =~= flatten(self.items@));
                },
                ParseExpr::LoadAttribute { key, value } => {
                    proof {
                        lemma_flatten_push(self.items@, Item::Load(in_expr));
                    }
                    self.output.push(Instruction::LoadAttribute { key, value });
                    self.items = Ghost(self.items@.push(Item::Load(in_expr)));
                    self.trailing = 0;
                    assert(self.output@ =~= flatten(self.items@));
                },
                ParseExpr::View(id) => {
                    proof {
                        lemma_flatten_push(self.items@, Item::View(id));
                    }
                    self.output.push(Instruction::View(id));
                    self.items = Ghost(self.items@.push(Item::View(id)));
                    self.trailing = 0;
                    assert(self.output@ =~= flatten(self.items@));
                },
                ParseExpr::Eof | ParseExpr::ScopeStart | ParseExpr::ScopeEnd => {},
            }
        }
    }

    /// Reads the scope of the `if` or `else` that was just read, and writes
    /// the head with its body.
    fn opt_control_flow(&mut self, control_flow: ControlFlow)
        requires
            old(self).inv(),
            0 < old(self).ep,
            old(self).trailing < old(self).ep,
            match control_flow {
                ControlFlow::If(cond) => old(self).input@[old(self).ep - 1] == ParseExpr::If(cond),
                ControlFlow::Else(cond) => old(self).input@[old(self).ep - 1] == ParseExpr::Else(
                    cond,
                ),
            },
        ensures
            final(self).inv(),
            final(self).input@ == old(self).input@,
            old(self).ep <= final(self).ep,
            items_of(final(self).input@, final(self).ep as int, final(self).items@) == items_of(
                old(self).input@,
                old(self).ep - 1,
                old(self).items@,
            ),
        decreases old(self).input.len(), 2int,
    {
        let start = self.output.len();
        let ghost before = self.items@;
        let body = self.opt_scope();
        let size = self.output.len() - start;
        match control_flow {
            ControlFlow::If(cond) => {
                let ghost item = Item::If { cond, body: body@ };
                proof {
                    lemma_flatten_push(before, item);
                    assert(self.output@.insert(start as int, Instruction::If { cond, size })
                        =~= flatten(before) + flat(item));
                }
                self.output.insert(start, Instruction::If { cond, size });
                self.items = Ghost(before.push(item));
                if size == 0 {
                    self.trailing = self.trailing + 1;
                } else {
                    self.trailing = 0;
                }
            },
            ControlFlow::Else(cond) => {
                let ghost item = Item::Else { cond, body: body@ };
                if size == 0 && self.trailing > 0 {
                    proof {
                        assert(flat(before.last()) =~= seq![
                            Instruction::If {
                                cond: before.last()->If_cond,
                                size: 0,
                            },
                        ]);
                        assert(self.output@.drop_last() =~= flatten(before.drop_last()));
                    }
                    self.output.pop();
                    self.items = Ghost(before.drop_last());
                    self.trailing = self.trailing - 1;
                } else {
                    proof {
                        lemma_flatten_push(before, item);
                        assert(self.output@.insert(
                            start as int,
                            Instruction::Else { cond, size },
                        ) =~= flatten(before) + flat(item));
                    }
                    self.output.insert(start, Instruction::Else { cond, size });
                    self.items = Ghost(before.push(item));
                    self.trailing = 0;
                }
            },
        }
    }

    /// Reads the scope that starts at the next statement, if one does, and
    /// writes the instructions of its statements. Returns the items read.
    fn opt_scope(&mut self) -> (body: Ghost<Seq<Item>>)
        requires
            old(self).ep <= old(self).input.len(),
        ensures
            final(self).input@ == old(self).input@,
            final(self).items@ == old(self).items@,
            final(self).trailing == old(self).trailing,
            final(self).ep == scope_at(old(self).input@, old(self).ep as int).next,
            old(self).ep <= final(self).ep <= final(self).input.len(),
            body@ == items_of(
                old(self).input@.subrange(
                    scope_at(old(self).input@, old(self).ep as int).from,
                    scope_at(old(self).input@, old(self).ep as int).to,
                ),
                0,
                Seq::empty(),
            ),
            final(self).output@ == old(self).output@ + flatten(body@),
        decreases old(self).input.len(), 1int,
    {
        let ghost input = self.input@;
        proof {
            lemma_scope_at(input, self.ep as int);
        }
        if self.ep < self.input.len() && matches!(self.input[self.ep], ParseExpr::ScopeStart) {
            self.ep += 1;  // consume ScopeStart
        } else {
            assert(self.output@ + flatten(Seq::<Item>::empty()) =~= self.output@);
            return Ghost(Seq::empty());
        }
        let start = self.ep;
        let mut end = self.ep;
        let mut level: usize = 1;
        let mut found = false;
        let mut inner: Vec<ParseExpr> = Vec::new();
        assert(inner@ =~= input.subrange(start as int, end as int));
        while end < self.input.len() && !found
            invariant
                1 <= start <= end <= self.input.len(),
                1 <= level <= end - start + 1,
                self.input@ == input,
                inner@ == input.subrange(start as int, end as int),
                found ==> end < self.input.len() && input[end as int] is ScopeEnd && level == 1,
                matching_end(input, end as int, level as nat) == matching_end(
                    input,
                    start as int,
                    1,
                ),
            decreases self.input.len() - end, (if found { 0int } else { 1int }),
        {
            let expr = self.input[end];
            match expr {
                ParseExpr::ScopeStart => {
                    level += 1;
                },
                ParseExpr::ScopeEnd => {
                    if level == 1 {
                        found = true;
                    } else {
                        level -= 1;
                    }
                },
                _ => {},
            }
            if !found {
                inner.push(expr);
                assert(input.subrange(start as int, end + 1) =~= input.subrange(
                    start as int,
                    end as int,
                ).push(input[end as int]));
                end += 1;
            }
        }
        assert(end == matching_end(input, start as int, 1));
        self.ep = if end < self.input.len() {
            end + 1  // consume the ScopeEnd
        } else {
            end
        };
        let mut optimizer = Optimizer::new(inner);
        optimizer.collapse();
        let ghost body = tree(inner@);
        let mut output = optimizer.output;
        self.output.append(&mut output);
        Ghost(body)
    }

    /// Reads the scope of the `for` that was just read, and writes the head
    /// with its body.
    fn opt_for(&mut self, data: usize, binding: usize)
        requires
            old(self).inv(),
            0 < old(self).ep,
            old(self).input@[old(self).ep - 1] == (ParseExpr::For { data, binding }),
        ensures
            final(self).inv(),
            final(self).input@ == old(self).input@,
            old(self).ep <= final(self).ep,
            items_of(final(self).input@, final(self).ep as int, final(self).items@) == items_of(
                old(self).input@,
                old(self).ep - 1,
                old(self).items@,
            ),
        decreases old(self).input.len(), 2int,
    {
        let start = self.output.len();
        let ghost before = self.items@;
        let body = self.opt_scope();
        let end = self.output.len();
        let ghost item = Item::For { data, binding, body: body@ };
        proof {
            lemma_flatten_push(before, item);
            assert(self.output@.insert(
                start as int,
                Instruction::For { data, binding, size: (end - start) as usize },
            ) =~= flatten(before) + flat(item));
        }
        self.output.insert(start, Instruction::For { data, binding, size: end - start });
        self.items = Ghost(before.push(item));
        self.trailing = 0;
    }

    /// Reads the loads and the scope of the node that was just read, and
    /// writes the loads, the node and its body.
    fn opt_node(&mut self, ident: usize)
        requires
            old(self).inv(),
            0 < old(self).ep,
            old(self).input@[old(self).ep - 1] == ParseExpr::Node(ident),
        ensures
            final(self).inv(),
            final(self).input@ == old(self).input@,
            old(self).ep <= final(self).ep,
            items_of(final(self).input@, final(self).ep as int, final(self).items@) == items_of(
                old(self).input@,
                old(self).ep - 1,
                old(self).items@,
            ),
        decreases old(self).input.len(), 2int,
    {
        let ghost input = self.input@;
        let ghost before = self.items@;
        let ghost first = self.ep as int;
        let start = self.output.len();
        proof {
            lemma_loads_end(input, first);
        }
        // Get attributes and text
        let mut text_and_attributes: usize = 0;
        assert(self.output@ =~= old(self).output@ + loads(input, first, self.ep as int));
        while self.ep < self.input.len() && is_load_statement(self.input[self.ep])
            invariant
                self.input@ == input,
                self.items@ == before,
                self.trailing == old(self).trailing,
                first == old(self).ep,
                first <= self.ep <= self.input.len(),
                start == old(self).output.len(),
                text_and_attributes == self.ep - first,
                loads_end(input, self.ep as int) == loads_end(input, first),
                self.output@ == old(self).output@ + loads(input, first, self.ep as int),
            decreases self.input.len() - self.ep,
        {
            match self.input[self.ep] {
                ParseExpr::LoadText(index) => {
                    self.output.push(Instruction::LoadText(index));
                },
                ParseExpr::LoadAttribute { key, value } => {
                    self.output.push(Instruction::LoadAttribute { key, value });
                },
                _ => {},
            }
            assert(input.subrange(first, self.ep + 1) =~= input.subrange(
                first,
                self.ep as int,
            ).push(input[self.ep as int]));
            assert(loads(input, first, self.ep + 1) =~= loads(input, first, self.ep as int).push(
                load_of(input[self.ep as int]),
            ));
            assert(self.output@ =~= old(self).output@ + loads(input, first, self.ep + 1));
            text_and_attributes += 1;
            self.ep += 1;
        }
        assert(self.ep == loads_end(input, first));
        let body = self.opt_scope();
        let child_scope_size = self.output.len() - start - text_and_attributes;
        let ghost item = Item::Node {
            ident,
            prefix: input.subrange(first, loads_end(input, first)),
            body: body@,
        };
        proof {
            lemma_flatten_push(before, item);
            assert(self.output@.insert(
                start + text_and_attributes,
                Instruction::Node { ident, scope_size: child_scope_size },
            ) =~= flatten(before) + flat(item));
        }
        self.output.insert(
            start + text_and_attributes,
            Instruction::Node { ident, scope_size: child_scope_size },
        );
        self.items = Ghost(before.push(item));
        self.trailing = 0;
    }

    /// Drops every `if`, `else` and `for` that no scope follows.
    fn remove_empty_if_else_for(&mut self)
        requires
            old(self).fresh(),
        ensures
            final(self).fresh(),
            final(self).input@ == drop_empty(old(self).input@),
    {
        let ghost input = self.input@;
        let mut kept: Vec<ParseExpr> = Vec::new();
        let mut p: usize = 0;
        while p < self.input.len()
            invariant
                p <= self.input.len(),
                self.input@ == input,
                self.fresh(),
                kept@ + drop_empty_from(input, p as int) == drop_empty(input),
            decreases self.input.len() - p,
        {
            let expr = self.input[p];
            let head = match expr {
                ParseExpr::If(_) | ParseExpr::Else(_) | ParseExpr::For { .. } => true,
                _ => false,
            };
            let scoped = p + 1 < self.input.len() && matches!(
                self.input[p + 1],
                ParseExpr::ScopeStart
            );
            if !(head && !scoped) {
                assert(kept@.push(expr) + drop_empty_from(input, p + 1) =~= kept@
                    + drop_empty_from(input, p as int));
                kept.push(expr);
            }
            p += 1;
        }
        assert(kept@ + drop_empty_from(input, p as int) =~= kept@);
        self.input = kept;
    }
}

} // verus!
