//! What the optimizer and the assembler do together: the templates that
//! the instruction stream assembles to are those that a walk over the
//! statement tree gives.
use vstd::prelude::*;
use crate::constants::Pool;
use crate::optimizer::{
    drop_empty, flat, flatten, load_instructions, load_of, optimize_spec, tree, Instruction, Item,
};
use crate::parser::ParseExpr;
use crate::template::{with_attribute, Arm, ArmCond, Tpl};
use crate::vm::{assemble, assemble_from, block_fits, chain_end, else_arms, else_cond, nothing_pending, string_at, text_at, value_at, Pending};

verus! {

/// What is pending behind one more load.
pub open spec fn load_one(pending: Pending, statement: ParseExpr, pool: Pool) -> Option<Pending> {
    match load_of(statement) {
        Instruction::LoadAttribute { key, value } => match (
            string_at(pool, key),
            value_at(pool, value),
        ) {
            (Some(k), Some(v)) => Some(
                Pending {
                    attributes: with_attribute(pending.attributes, k, v),
                    text: pending.text,
                },
            ),
            _ => None,
        },
        Instruction::LoadText(id) => match text_at(pool, id) {
            Some(text) => Some(Pending { attributes: pending.attributes, text: Some(text) }),
            None => None,
        },
        _ => None,
    }
}

/// What is pending behind the loads of a node, read in order.
pub open spec fn load_all(prefix: Seq<ParseExpr>, pool: Pool, pending: Pending) -> Option<Pending>
    decreases prefix.len(),
{
    if prefix.len() == 0 {
        Some(pending)
    } else {
        match load_one(pending, prefix[0], pool) {
            Some(next) => load_all(prefix.drop_first(), pool, next),
            None => None,
        }
    }
}

/// The arms that the run of `else` items from `pos` on makes, behind those
/// in `acc`.
pub open spec fn else_items(items: Seq<Item>, pool: Pool, pos: int, acc: Seq<Arm>) -> Option<
    Seq<Arm>,
>
    decreases items, items.len() - pos, 0int,
{
    if 0 <= pos < items.len() {
        match items[pos] {
            Item::Else { cond, body } => match (
                else_cond(pool, cond),
                walk_from(body, pool, 0, Seq::empty()),
            ) {
                (Some(cond), Some(body)) => else_items(
                    items,
                    pool,
                    pos + 1,
                    acc.push(Arm { cond, body }),
                ),
                _ => None,
            },
            _ => Some(acc),
        }
    } else {
        Some(acc)
    }
}

/// The end of the run of `else` items that starts at `pos`.
pub open spec fn else_run_end(items: Seq<Item>, pos: int) -> int
    decreases items.len() - pos,
{
    if 0 <= pos < items.len() && items[pos] is Else {
        else_run_end(items, pos + 1)
    } else {
        pos
    }
}

pub proof fn lemma_else_run_end(items: Seq<Item>, pos: int)
    requires
        0 <= pos <= items.len(),
    ensures
        pos <= else_run_end(items, pos) <= items.len(),
    decreases items.len() - pos,
{
    if pos < items.len() && items[pos] is Else {
        lemma_else_run_end(items, pos + 1);
    }
}

/// The templates of the items from `pos` on, behind those in `acc`: the
/// walk over the tree. A node takes its loads as attributes and text and
/// its body as children; a `for` is a loop over its body; an `if` and the
/// `else` items right behind it are one chain of arms. `None` where an id
/// is not in the pool, an `else` has no `if` before it, or a load follows
/// no node.
pub open spec fn walk_from(items: Seq<Item>, pool: Pool, pos: int, acc: Seq<Tpl>) -> Option<
    Seq<Tpl>,
>
    decreases items, items.len() - pos, 1int,
{
    if pos < 0 || pos >= items.len() {
        Some(acc)
    } else {
        match items[pos] {
            Item::Node { ident, prefix, body } => match (
                load_all(prefix, pool, nothing_pending()),
                string_at(pool, ident),
                walk_from(body, pool, 0, Seq::empty()),
            ) {
                (Some(loaded), Some(name), Some(children)) => walk_from(
                    items,
                    pool,
                    pos + 1,
                    acc.push(
                        Tpl::Node {
                            ident: name,
                            attributes: loaded.attributes,
                            text: loaded.text,
                            children,
                        },
                    ),
                ),
                _ => None,
            },
            Item::For { data, binding, body } => match (
                string_at(pool, binding),
                value_at(pool, data),
                walk_from(body, pool, 0, Seq::empty()),
            ) {
                (Some(binding), Some(data), Some(body)) => walk_from(
                    items,
                    pool,
                    pos + 1,
                    acc.push(Tpl::Loop { binding, data, body }),
                ),
                _ => None,
            },
            Item::If { cond, body } => match (
                value_at(pool, cond),
                walk_from(body, pool, 0, Seq::empty()),
            ) {
                (Some(cond), Some(body)) => {
                    proof {
                        lemma_else_run_end(items, pos + 1);
                    }
                    match else_items(
                        items,
                        pool,
                        pos + 1,
                        seq![Arm { cond: ArmCond::If(cond), body }],
                    ) {
                        Some(arms) => walk_from(
                            items,
                            pool,
                            else_run_end(items, pos + 1),
                            acc.push(Tpl::ControlFlow(arms)),
                        ),
                        None => None,
                    }
                },
                _ => None,
            },
            Item::Else { .. } => None,
            Item::Load(_) => None,
            Item::View(id) => match value_at(pool, id) {
                Some(e) => walk_from(items, pool, pos + 1, acc.push(Tpl::View(e))),
                None => None,
            },
        }
    }
}

/// The templates of a list of items.
pub open spec fn walk(items: Seq<Item>, pool: Pool) -> Option<Seq<Tpl>> {
    walk_from(items, pool, 0, Seq::empty())
}

/// No load stands alone, at any depth.
pub open spec fn loads_follow_nodes(items: Seq<Item>) -> bool
    decreases items,
{
    forall|i: int|
        0 <= i < items.len() ==> match #[trigger] items[i] {
            Item::If { cond, body } => loads_follow_nodes(body),
            Item::Else { cond, body } => loads_follow_nodes(body),
            Item::For { data, binding, body } => loads_follow_nodes(body),
            Item::Node { ident, prefix, body } => loads_follow_nodes(body),
            Item::Load(_) => false,
            Item::View(_) => true,
        }
}

/// Where the instructions of the item `k` start in the instructions of
/// `items`.
pub open spec fn start_of(items: Seq<Item>, k: int) -> nat {
    flatten(items.take(k)).len()
}

/// The instructions of the first `k` items are the first instructions of
/// all of them, and those of the item `k` follow.
pub proof fn lemma_flatten_take(items: Seq<Item>, k: int)
    requires
        0 <= k <= items.len(),
    ensures
        start_of(items, k) <= flatten(items).len(),
        k == items.len() ==> start_of(items, k) == flatten(items).len(),
        start_of(items, 0) == 0,
        flatten(items).subrange(0, start_of(items, k) as int) == flatten(items.take(k)),
        k < items.len() ==> start_of(items, k + 1) == start_of(items, k) + flat(items[k]).len()
            && start_of(items, k + 1) <= flatten(items).len() && flatten(items).subrange(
            start_of(items, k) as int,
            start_of(items, k + 1) as int,
        ) == flat(items[k]),
    decreases items.len() - k,
{
    let stream = flatten(items);
    assert(items.take(0) =~= Seq::<Item>::empty());
    if k == items.len() {
        assert(items.take(k) =~= items);
        assert(stream.subrange(0, stream.len() as int) =~= stream);
    } else {
        lemma_flatten_take(items, k + 1);
        assert(items.take(k + 1).drop_last() =~= items.take(k));
        assert(items.take(k + 1).last() == items[k]);
        let front = flatten(items.take(k));
        let whole = flatten(items.take(k + 1));
        assert(whole == front + flat(items[k]));
        assert(stream.subrange(0, front.len() as int) =~= front) by {
            assert(stream.subrange(0, whole.len() as int).subrange(0, front.len() as int)
                =~= stream.subrange(0, front.len() as int));
        }
        assert(stream.subrange(front.len() as int, whole.len() as int) =~= flat(items[k])) by {
            assert(stream.subrange(0, whole.len() as int).subrange(
                front.len() as int,
                whole.len() as int,
            ) =~= stream.subrange(front.len() as int, whole.len() as int));
        }
    }
}

proof fn lemma_subrange_twice<T>(s: Seq<T>, a: int, b: int, c: int, d: int)
    requires
        0 <= a,
        0 <= c <= d,
        a + d <= b <= s.len(),
    ensures
        s.subrange(a, b).subrange(c, d) == s.subrange(a + c, a + d),
{
    assert(s.subrange(a, b).subrange(c, d) =~= s.subrange(a + c, a + d));
}

/// The body of a head lies right behind it in the stream.
proof fn lemma_body_in_stream(
    stream: Seq<Instruction>,
    p: int,
    front: Seq<Instruction>,
    body: Seq<Instruction>,
)
    requires
        0 <= p,
        p + front.len() + body.len() <= stream.len(),
        stream.subrange(p, p + front.len() + body.len()) == front + body,
    ensures
        stream.subrange(p, p + front.len()) == front,
        stream.subrange(p + front.len(), p + front.len() + body.len()) == body,
        forall|i: int| 0 <= i < front.len() ==> stream[p + i] == front[i],
{
    let whole = front + body;
    let m = front.len() as int;
    let n = body.len() as int;
    lemma_subrange_twice(stream, p, p + m + n, 0, m);
    lemma_subrange_twice(stream, p, p + m + n, m, m + n);
    assert(whole.subrange(0, m) =~= front);
    assert(whole.subrange(m, m + n) =~= body);
    assert forall|i: int| 0 <= i < front.len() implies stream[p + i] == front[i] by {
        assert(stream.subrange(p, p + m + n)[i] == whole[i]);
    }
}

/// The assembler reads a run of loads as the walk does.
proof fn lemma_assemble_loads(
    stream: Seq<Instruction>,
    pool: Pool,
    p: int,
    prefix: Seq<ParseExpr>,
    pending: Pending,
    acc: Seq<Tpl>,
)
    requires
        0 <= p,
        p + prefix.len() < stream.len(),
        stream.subrange(p, p + prefix.len()) == load_instructions(prefix),
    ensures
        assemble_from(stream, pool, p, pending, acc) == match load_all(prefix, pool, pending) {
            Some(loaded) => assemble_from(stream, pool, p + prefix.len(), loaded, acc),
            None => None,
        },
    decreases prefix.len(),
{
    if prefix.len() > 0 {
        let loads = load_instructions(prefix);
        assert(stream[p] == stream.subrange(p, p + prefix.len())[0]);
        assert(loads[0] == load_of(prefix[0]));
        let rest = prefix.drop_first();
        assert(stream.subrange(p + 1, p + 1 + rest.len()) =~= load_instructions(rest)) by {
            assert forall|i: int| 0 <= i < rest.len() implies stream.subrange(
                p + 1,
                p + 1 + rest.len(),
            )[i] == load_instructions(rest)[i] by {
                assert(stream.subrange(p, p + prefix.len())[i + 1] == loads[i + 1]);
            }
        }
        match load_one(pending, prefix[0], pool) {
            Some(next) => {
                lemma_assemble_loads(stream, pool, p + 1, rest, next, acc);
            },
            None => {},
        }
    }
}

/// The assembler reads a run of `else` blocks as the walk reads the run of
/// `else` items.
proof fn lemma_assemble_else(items: Seq<Item>, pool: Pool, k: int, acc: Seq<Arm>)
    requires
        0 <= k <= items.len(),
        flatten(items).len() <= usize::MAX,
        loads_follow_nodes(items),
    ensures
        else_arms(flatten(items), pool, start_of(items, k) as int, acc) == else_items(
            items,
            pool,
            k,
            acc,
        ),
        chain_end(flatten(items), start_of(items, k) as int) == start_of(
            items,
            else_run_end(items, k),
        ),
    decreases items, items.len() - k, 0int,
{
    let stream = flatten(items);
    let p = start_of(items, k) as int;
    lemma_flatten_take(items, k);
    if k < items.len() {
        let f = flat(items[k]);
        assert(f == stream.subrange(p, p + f.len()));
        match items[k] {
            Item::Else { cond, body } => {
                let n = flatten(body).len();
                let head = seq![Instruction::Else { cond, size: n as usize }];
                lemma_body_in_stream(stream, p, head, flatten(body));
                assert(stream[p + 0] == head[0]);
                lemma_flatten_take(body, 0);
                lemma_assemble_walk(body, pool, 0, Seq::empty());
                assert(assemble_from(flatten(body), pool, 0, nothing_pending(), Seq::empty())
                    == walk_from(body, pool, 0, Seq::empty()));
                assert(stream[p] == (Instruction::Else { cond, size: n as usize }));
                assert(block_fits(stream, p, n as usize));
                assert(else_run_end(items, k) == else_run_end(items, k + 1));
                match (else_cond(pool, cond), walk_from(body, pool, 0, Seq::empty())) {
                    (Some(c), Some(b)) => {
                        lemma_assemble_else(items, pool, k + 1, acc.push(Arm { cond: c, body: b }));
                    },
                    _ => {
                        lemma_assemble_else(items, pool, k + 1, acc);
                    },
                }
            },
            Item::Node { ident, prefix, body } => {
                assert(stream[p] == stream.subrange(p, p + f.len())[0]);
                if prefix.len() > 0 {
                    assert(f[0] == load_instructions(prefix)[0]);
                }
                assert(!(stream[p] is Else));
            },
            Item::If { cond, body } => {
                assert(stream[p] == stream.subrange(p, p + f.len())[0]);
                assert(!(stream[p] is Else));
            },
            Item::For { data, binding, body } => {
                assert(stream[p] == stream.subrange(p, p + f.len())[0]);
                assert(!(stream[p] is Else));
            },
            Item::Load(load) => {
                assert(stream[p] == stream.subrange(p, p + f.len())[0]);
                assert(!(stream[p] is Else));
            },
            Item::View(id) => {
                assert(stream[p] == stream.subrange(p, p + f.len())[0]);
                assert(!(stream[p] is Else));
            },
        }
    } else {
        assert(else_arms(stream, pool, p, acc) == Some(acc));
        assert(chain_end(stream, p) == p);
    }
}

/// The assembler reads the instructions of a list of items as the walk
/// reads the items.
proof fn lemma_assemble_walk(items: Seq<Item>, pool: Pool, k: int, acc: Seq<Tpl>)
    requires
        0 <= k <= items.len(),
        flatten(items).len() <= usize::MAX,
        loads_follow_nodes(items),
    ensures
        assemble_from(flatten(items), pool, start_of(items, k) as int, nothing_pending(), acc)
            == walk_from(items, pool, k, acc),
    decreases items, items.len() - k, 1int,
{
    let stream = flatten(items);
    let p = start_of(items, k) as int;
    lemma_flatten_take(items, k);
    if k < items.len() {
        let f = flat(items[k]);
        assert(f == stream.subrange(p, p + f.len()));
        match items[k] {
            Item::Node { ident, prefix, body } => {
                let m = prefix.len() as int;
                let n = flatten(body).len() as int;
                let front = load_instructions(prefix) + seq![
                    Instruction::Node { ident, scope_size: n as usize },
                ];
                lemma_body_in_stream(stream, p, front, flatten(body));
                lemma_subrange_twice(stream, p, p + m + 1, 0, m);
                assert(front.subrange(0, m) =~= load_instructions(prefix));
                lemma_assemble_loads(stream, pool, p, prefix, nothing_pending(), acc);
                assert(stream[p + m] == front[m]);
                lemma_flatten_take(body, 0);
                lemma_assemble_walk(body, pool, 0, Seq::empty());
                assert(assemble_from(flatten(body), pool, 0, nothing_pending(), Seq::empty())
                    == walk_from(body, pool, 0, Seq::empty()));
                match (
                    load_all(prefix, pool, nothing_pending()),
                    string_at(pool, ident),
                    walk_from(body, pool, 0, Seq::empty()),
                ) {
                    (Some(loaded), Some(name), Some(children)) => {
                        lemma_assemble_walk(
                            items,
                            pool,
                            k + 1,
                            acc.push(
                                Tpl::Node {
                                    ident: name,
                                    attributes: loaded.attributes,
                                    text: loaded.text,
                                    children,
                                },
                            ),
                        );
                    },
                    _ => {},
                }
            },
            Item::For { data, binding, body } => {
                let n = flatten(body).len() as int;
                let head = seq![Instruction::For { data, binding, size: n as usize }];
                lemma_body_in_stream(stream, p, head, flatten(body));
                assert(stream[p + 0] == head[0]);
                lemma_flatten_take(body, 0);
                lemma_assemble_walk(body, pool, 0, Seq::empty());
                assert(assemble_from(flatten(body), pool, 0, nothing_pending(), Seq::empty())
                    == walk_from(body, pool, 0, Seq::empty()));
                match (
                    string_at(pool, binding),
                    value_at(pool, data),
                    walk_from(body, pool, 0, Seq::empty()),
                ) {
                    (Some(b), Some(d), Some(inner)) => {
                        lemma_assemble_walk(
                            items,
                            pool,
                            k + 1,
                            acc.push(Tpl::Loop { binding: b, data: d, body: inner }),
                        );
                    },
                    _ => {},
                }
            },
            Item::If { cond, body } => {
                let n = flatten(body).len() as int;
                let head = seq![Instruction::If { cond, size: n as usize }];
                lemma_body_in_stream(stream, p, head, flatten(body));
                assert(stream[p + 0] == head[0]);
                lemma_flatten_take(body, 0);
                lemma_assemble_walk(body, pool, 0, Seq::empty());
                assert(assemble_from(flatten(body), pool, 0, nothing_pending(), Seq::empty())
                    == walk_from(body, pool, 0, Seq::empty()));
                match (value_at(pool, cond), walk_from(body, pool, 0, Seq::empty())) {
                    (Some(c), Some(inner)) => {
                        let first = seq![Arm { cond: ArmCond::If(c), body: inner }];
                        lemma_assemble_else(items, pool, k + 1, first);
                        lemma_else_run_end(items, k + 1);
                        match else_items(items, pool, k + 1, first) {
                            Some(arms) => {
                                lemma_assemble_walk(
                                    items,
                                    pool,
                                    else_run_end(items, k + 1),
                                    acc.push(Tpl::ControlFlow(arms)),
                                );
                            },
                            None => {},
                        }
                    },
                    _ => {},
                }
            },
            Item::Else { cond, body } => {
                assert(stream[p] == stream.subrange(p, p + f.len())[0]);
                assert(stream[p] is Else);
            },
            Item::Load(_) => {},
            Item::View(id) => {
                assert(stream[p] == stream.subrange(p, p + f.len())[0]);
                match value_at(pool, id) {
                    Some(e) => {
                        lemma_assemble_walk(items, pool, k + 1, acc.push(Tpl::View(e)));
                    },
                    None => {},
                }
            },
        }
    } else {
        assert(assemble_from(stream, pool, p, nothing_pending(), acc) == Some(acc));
    }
}

/// Optimizing keeps the meaning: the templates that the instruction stream
/// of a statement list assembles to are those of the walk over the tree of
/// the list, its empty heads dropped. This holds of every list in which
/// each load follows a node, and of every pool.
pub proof fn lemma_optimizer_preserves_meaning(input: Seq<ParseExpr>, pool: Pool)
    requires
        optimize_spec(input).len() <= usize::MAX,
        loads_follow_nodes(tree(drop_empty(input))),
    ensures
        assemble(optimize_spec(input), pool) == walk(tree(drop_empty(input)), pool),
{
    let items = tree(drop_empty(input));
    assert(items.take(0) =~= Seq::<Item>::empty());
    lemma_assemble_walk(items, pool, 0, Seq::empty());
}

} // verus!
