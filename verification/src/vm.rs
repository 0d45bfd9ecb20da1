//! The template assembler: the instruction stream becomes a tree of
//! templates, with every id looked up in the constant pool.
use vstd::prelude::*;
use crate::constants::{Constants, Pool, TextId, TextPart, ValueId};
use crate::error::Error;
use crate::optimizer::Instruction;
use crate::template::{
    arms_view, lemma_arm_view, lemma_control_flow_view, lemma_loop_view, lemma_node_view,
    pieces_of, templates_view, text_view, with_attribute, Arm, ArmCond, Attributes, Cond,
    ControlFlow, Fragment, Piece, Template, Text, TextView, Tpl,
};
use crate::token::StringId;
use crate::value::Term;

verus! {

pub open spec fn string_at(pool: Pool, id: usize) -> Option<Seq<char>> {
    if id < pool.strings.len() {
        Some(pool.strings[id as int])
    } else {
        None
    }
}

pub open spec fn value_at(pool: Pool, id: usize) -> Option<Term> {
    if id < pool.values.len() {
        Some(pool.values[id as int])
    } else {
        None
    }
}

/// The piece that a part of a text stands for.
pub open spec fn piece_of(part: TextPart, pool: Pool) -> Option<Piece> {
    match part {
        TextPart::Literal(id) => match string_at(pool, id.0) {
            Some(s) => Some(Piece::String(s)),
            None => None,
        },
        TextPart::Path(id) => match value_at(pool, id.0) {
            Some(e) => Some(Piece::Data(e)),
            None => None,
        },
    }
}

/// The pieces that the first `n` parts of a text stand for.
pub open spec fn pieces_at(parts: Seq<TextPart>, pool: Pool, n: int) -> Option<Seq<Piece>>
    decreases n,
{
    if n <= 0 {
        Some(Seq::empty())
    } else {
        match (pieces_at(parts, pool, n - 1), piece_of(parts[n - 1], pool)) {
            (Some(front), Some(piece)) => Some(front.push(piece)),
            _ => None,
        }
    }
}

/// The text that pieces make: one string where there is nothing else.
pub open spec fn text_of(pieces: Seq<Piece>) -> TextView {
    if pieces.len() == 1 && pieces[0] is String {
        TextView::String(pieces[0]->String_0)
    } else {
        TextView::Fragments(pieces)
    }
}

/// The text with the id `id`, every part looked up.
pub open spec fn text_at(pool: Pool, id: usize) -> Option<TextView> {
    if id < pool.texts.len() {
        match pieces_at(pool.texts[id as int], pool, pool.texts[id as int].len() as int) {
            Some(pieces) => Some(text_of(pieces)),
            None => None,
        }
    } else {
        None
    }
}

/// The attributes and the text that were loaded for the node to come.
pub struct Pending {
    pub attributes: Seq<(Seq<char>, Term)>,
    pub text: Option<TextView>,
}

pub open spec fn nothing_pending() -> Pending {
    Pending { attributes: Seq::empty(), text: None }
}

/// The block behind the instruction at `pos` lies within the stream.
pub open spec fn block_fits(stream: Seq<Instruction>, pos: int, size: usize) -> bool {
    0 <= pos && pos + 1 + size <= stream.len()
}

/// The end of the run of `else` blocks that starts at `pos`.
pub open spec fn chain_end(stream: Seq<Instruction>, pos: int) -> int
    decreases stream.len() - pos,
{
    if 0 <= pos < stream.len() {
        match stream[pos] {
            Instruction::Else { cond, size } => if block_fits(stream, pos, size) {
                chain_end(stream, pos + 1 + size)
            } else {
                pos
            },
            _ => pos,
        }
    } else {
        pos
    }
}

pub proof fn lemma_chain_end(stream: Seq<Instruction>, pos: int)
    requires
        0 <= pos <= stream.len(),
    ensures
        pos <= chain_end(stream, pos) <= stream.len(),
    decreases stream.len() - pos,
{
    if pos < stream.len() {
        match stream[pos] {
            Instruction::Else { cond, size } => if block_fits(stream, pos, size) {
                lemma_chain_end(stream, pos + 1 + size);
            },
            _ => {},
        }
    }
}

/// The condition of an `else`, looked up where it has one.
pub open spec fn else_cond(pool: Pool, cond: Option<usize>) -> Option<ArmCond> {
    match cond {
        Some(id) => match value_at(pool, id) {
            Some(e) => Some(ArmCond::Else(Some(e))),
            None => None,
        },
        None => Some(ArmCond::Else(None)),
    }
}

/// The arms that the run of `else` blocks from `pos` on makes, behind
/// those in `acc`.
pub open spec fn else_arms(stream: Seq<Instruction>, pool: Pool, pos: int, acc: Seq<Arm>) -> Option<
    Seq<Arm>,
>
    decreases stream.len(), stream.len() - pos, 0int,
{
    if 0 <= pos < stream.len() {
        match stream[pos] {
            Instruction::Else { cond, size } => if block_fits(stream, pos, size) {
                match (
                    else_cond(pool, cond),
                    assemble_from(
                        stream.subrange(pos + 1, pos + 1 + size),
                        pool,
                        0,
                        nothing_pending(),
                        Seq::empty(),
                    ),
                ) {
                    (Some(cond), Some(body)) => else_arms(
                        stream,
                        pool,
                        pos + 1 + size,
                        acc.push(Arm { cond, body }),
                    ),
                    _ => None,
                }
            } else {
                Some(acc)
            },
            _ => Some(acc),
        }
    } else {
        Some(acc)
    }
}

/// The templates that the instructions from `pos` on make, behind those in
/// `acc`; `None` where the stream is not one that the optimizer writes for
/// this pool. `pending` holds what was loaded since the last node.
///
/// * Loads are kept for the node that follows them; nothing else may follow
///   them.
/// * A node takes what was loaded, and the instructions of its scope make its
///   children.
/// * A `for` makes a loop out of its body.
/// * An `if` and the `else` blocks right behind it make one chain of arms.
///   An `else` without an `if` before it cannot stand.
/// * Every id must be in the pool, and every block must lie within the
///   stream.
pub open spec fn assemble_from(
    stream: Seq<Instruction>,
    pool: Pool,
    pos: int,
    pending: Pending,
    acc: Seq<Tpl>,
) -> Option<Seq<Tpl>>
    decreases stream.len(), stream.len() - pos, 1int,
{
    if pos < 0 || pos >= stream.len() {
        if pending == nothing_pending() {
            Some(acc)
        } else {
            None
        }
    } else {
        match stream[pos] {
            Instruction::LoadAttribute { key, value } => match (
                string_at(pool, key),
                value_at(pool, value),
            ) {
                (Some(k), Some(v)) => assemble_from(
                    stream,
                    pool,
                    pos + 1,
                    Pending {
                        attributes: with_attribute(pending.attributes, k, v),
                        text: pending.text,
                    },
                    acc,
                ),
                _ => None,
            },
            Instruction::LoadText(id) => match text_at(pool, id) {
                Some(text) => assemble_from(
                    stream,
                    pool,
                    pos + 1,
                    Pending { attributes: pending.attributes, text: Some(text) },
                    acc,
                ),
                None => None,
            },
            Instruction::Node { ident, scope_size } => if block_fits(stream, pos, scope_size) {
                match (
                    string_at(pool, ident),
                    assemble_from(
                        stream.subrange(pos + 1, pos + 1 + scope_size),
                        pool,
                        0,
                        nothing_pending(),
                        Seq::empty(),
                    ),
                ) {
                    (Some(name), Some(children)) => assemble_from(
                        stream,
                        pool,
                        pos + 1 + scope_size,
                        nothing_pending(),
                        acc.push(
                            Tpl::Node {
                                ident: name,
                                attributes: pending.attributes,
                                text: pending.text,
                                children,
                            },
                        ),
                    ),
                    _ => None,
                }
            } else {
                None
            },
            Instruction::For { data, binding, size } => if block_fits(stream, pos, size)
                && pending == nothing_pending() {
                match (
                    string_at(pool, binding),
                    value_at(pool, data),
                    assemble_from(
                        stream.subrange(pos + 1, pos + 1 + size),
                        pool,
                        0,
                        nothing_pending(),
                        Seq::empty(),
                    ),
                ) {
                    (Some(binding), Some(data), Some(body)) => assemble_from(
                        stream,
                        pool,
                        pos + 1 + size,
                        nothing_pending(),
                        acc.push(Tpl::Loop { binding, data, body }),
                    ),
                    _ => None,
                }
            } else {
                None
            },
            Instruction::If { cond, size } => if block_fits(stream, pos, size) && pending
                == nothing_pending() {
                match (
                    value_at(pool, cond),
                    assemble_from(
                        stream.subrange(pos + 1, pos + 1 + size),
                        pool,
                        0,
                        nothing_pending(),
                        Seq::empty(),
                    ),
                ) {
                    (Some(cond), Some(body)) => {
                        proof {
                            lemma_chain_end(stream, pos + 1 + size);
                        }
                        match else_arms(
                            stream,
                            pool,
                            pos + 1 + size,
                            seq![Arm { cond: ArmCond::If(cond), body }],
                        ) {
                            Some(arms) => assemble_from(
                                stream,
                                pool,
                                chain_end(stream, pos + 1 + size),
                                nothing_pending(),
                                acc.push(Tpl::ControlFlow(arms)),
                            ),
                            None => None,
                        }
                    },
                    _ => None,
                }
            } else {
                None
            },
            Instruction::Else { .. } => None,
            Instruction::View(id) => if pending == nothing_pending() {
                match value_at(pool, id) {
                    Some(e) => assemble_from(
                        stream,
                        pool,
                        pos + 1,
                        nothing_pending(),
                        acc.push(Tpl::View(e)),
                    ),
                    None => None,
                }
            } else {
                None
            },
        }
    }
}

/// The templates of an instruction stream.
pub open spec fn assemble(stream: Seq<Instruction>, pool: Pool) -> Option<Seq<Tpl>> {
    assemble_from(stream, pool, 0, nothing_pending(), Seq::empty())
}

/// `r` is what `expected` says: the same templates, or the error of a
/// stream that cannot stand.
pub open spec fn assembled(expected: Option<Seq<Tpl>>, r: Result<Vec<Template>, Error>) -> bool {
    match expected {
        Some(templates) => r is Ok && templates_view(r->Ok_0@) == templates,
        None => r is Err && r->Err_0 is OptimizerInvariant,
    }
}

pub struct Scope<'vm> {
    instructions: Vec<Instruction>,
    consts: &'vm Constants,
}

impl<'vm> Scope<'vm> {
    /// The instructions to assemble.
    pub closed spec fn instructions(&self) -> Seq<Instruction> {
        self.instructions@
    }

    /// The pool that the ids are looked up in.
    pub closed spec fn pool(&self) -> Pool {
        self.consts@
    }

    pub fn new(instructions: Vec<Instruction>, consts: &'vm Constants) -> (s: Self)
        ensures
            s.instructions() == instructions@,
            s.pool() == consts@,
    {
        Self { instructions, consts }
    }

    /// Assembles the instructions into templates; see [`assemble_from`].
    /// The instructions are used up by it: once they are assembled none is
    /// left, and a second call gives no template. Where they cannot be
    /// assembled they stay as they are.
    pub fn exec(&mut self) -> (r: Result<Vec<Template>, Error>)
        ensures
            assembled(assemble(old(self).instructions(), old(self).pool()), r),
            final(self).pool() == old(self).pool(),
            final(self).instructions() == if r is Ok {
                Seq::<Instruction>::empty()
            } else {
                old(self).instructions()
            },
    {
        let r = self.assemble_all();
        if r.is_ok() {
            self.instructions = Vec::new();
        }
        r
    }

    /// Assembles the instructions into templates and leaves them in place.
    fn assemble_all(&self) -> (r: Result<Vec<Template>, Error>)
        ensures
            assembled(assemble(self.instructions(), self.pool()), r),
        decreases self.instructions().len(), 3int,
    {
        let ghost stream = self.instructions@;
        let ghost pool = self.consts@;
        let ghost goal = assemble(stream, pool);
        let mut nodes: Vec<Template> = Vec::new();
        let mut attributes = Attributes::empty();
        let mut text: Option<Text> = None;
        let mut ip: usize = 0;
        assert(templates_view(nodes@) =~= Seq::<Tpl>::empty());
        while ip < self.instructions.len()
            invariant
                ip <= self.instructions.len(),
                stream == self.instructions@,
                pool == self.consts@,
                goal == assemble(stream, pool),
                assemble_from(
                    stream,
                    pool,
                    ip as int,
                    Pending { attributes: attributes@, text: text_view(text) },
                    templates_view(nodes@),
                ) == goal,
            decreases self.instructions.len() - ip,
        {
            let ghost before = templates_view(nodes@);
            let idle = attributes.len() == 0 && text.is_none();
            proof {
                if idle {
                    assert(attributes@ =~= Seq::<(Seq<char>, Term)>::empty());
                }
            }
            match self.instructions[ip] {
                Instruction::LoadAttribute { key, value } => {
                    let k = match self.consts.lookup_string(StringId(key)) {
                        Some(k) => k.clone(),
                        None => {
                            return Err(Error::OptimizerInvariant);
                        },
                    };
                    let v = match self.consts.lookup_value(ValueId(value)) {
                        Some(v) => v.duplicate(),
                        None => {
                            return Err(Error::OptimizerInvariant);
                        },
                    };
                    attributes.set(k, v);
                    ip += 1;
                },
                Instruction::LoadText(id) => {
                    match self.text(id) {
                        Some(t) => {
                            text = Some(t);
                        },
                        None => {
                            return Err(Error::OptimizerInvariant);
                        },
                    }
                    ip += 1;
                },
                Instruction::Node { ident, scope_size } => {
                    let node_attributes = attributes;
                    let node_text = text;
                    attributes = Attributes::empty();
                    text = None;
                    match self.node(ident, scope_size, ip, node_attributes, node_text) {
                        Ok(node) => {
                            nodes.push(node);
                            assert(templates_view(nodes@) =~= before.push(node@));
                        },
                        Err(e) => {
                            return Err(e);
                        },
                    }
                    ip = ip + 1 + scope_size;
                },
                Instruction::For { binding, data, size } => {
                    if !idle {
                        return Err(Error::OptimizerInvariant);
                    }
                    let body = match self.body(ip, size) {
                        Ok(body) => body,
                        Err(e) => {
                            return Err(e);
                        },
                    };
                    let binding = match self.consts.lookup_string(StringId(binding)) {
                        Some(binding) => binding.clone(),
                        None => {
                            return Err(Error::OptimizerInvariant);
                        },
                    };
                    let data = match self.consts.lookup_value(ValueId(data)) {
                        Some(data) => data.duplicate(),
                        None => {
                            return Err(Error::OptimizerInvariant);
                        },
                    };
                    proof {
                        lemma_loop_view(binding, data, body);
                    }
                    let template = Template::Loop { binding, data, body };
                    nodes.push(template);
                    assert(templates_view(nodes@) =~= before.push(template@));
                    ip = ip + 1 + size;
                },
                Instruction::If { cond, size } => {
                    if !idle {
                        return Err(Error::OptimizerInvariant);
                    }
                    let body = match self.body(ip, size) {
                        Ok(body) => body,
                        Err(e) => {
                            return Err(e);
                        },
                    };
                    let cond = match self.consts.lookup_value(ValueId(cond)) {
                        Some(cond) => cond.duplicate(),
                        None => {
                            return Err(Error::OptimizerInvariant);
                        },
                    };
                    proof {
                        lemma_arm_view(Cond::If(cond), body);
                    }
                    let mut control_flow: Vec<ControlFlow> = Vec::new();
                    control_flow.push(ControlFlow { cond: Cond::If(cond), body });
                    assert(arms_view(control_flow@) =~= seq![
                        Arm { cond: ArmCond::If(cond@), body: templates_view(body@) },
                    ]);
                    ip = ip + 1 + size;
                    let ghost chain = ip as int;
                    let ghost whole = else_arms(
                        stream,
                        pool,
                        chain,
                        seq![Arm { cond: ArmCond::If(cond@), body: templates_view(body@) }],
                    );
                    proof {
                        lemma_chain_end(stream, chain);
                        assert(whole is None ==> goal is None);
                    }
                    loop
                        invariant
                            chain <= ip <= self.instructions.len(),
                            stream == self.instructions@,
                            pool == self.consts@,
                            chain_end(stream, ip as int) == chain_end(stream, chain),
                            else_arms(stream, pool, ip as int, arms_view(control_flow@)) == whole,
                            whole is None ==> goal is None,
                            goal == assemble(stream, pool),
                        ensures
                            chain <= ip <= self.instructions.len(),
                            ip == chain_end(stream, chain),
                            whole == Some(arms_view(control_flow@)),
                        decreases self.instructions.len() - ip,
                    {
                        if ip >= self.instructions.len() {
                            break ;
                        }
                        let (else_cond, else_size) = match self.instructions[ip] {
                            Instruction::Else { cond, size } => (cond, size),
                            _ => {
                                break ;
                            },
                        };
                        if else_size > self.instructions.len() - ip - 1 {
                            break ;
                        }
                        let ghost arms_before = arms_view(control_flow@);
                        let else_cond = match else_cond {
                            Some(id) => match self.consts.lookup_value(ValueId(id)) {
                                Some(c) => Some(c.duplicate()),
                                None => {
                                    return Err(Error::OptimizerInvariant);
                                },
                            },
                            None => None,
                        };
                        let else_body = match self.body(ip, else_size) {
                            Ok(body) => body,
                            Err(e) => {
                                return Err(e);
                            },
                        };
                        proof {
                            lemma_arm_view(Cond::Else(else_cond), else_body);
                        }
                        let arm = ControlFlow { cond: Cond::Else(else_cond), body: else_body };
                        control_flow.push(arm);
                        assert(arms_view(control_flow@) =~= arms_before.push(arm@));
                        ip = ip + 1 + else_size;
                    }
                    proof {
                        lemma_control_flow_view(control_flow);
                    }
                    let template = Template::ControlFlow(control_flow);
                    nodes.push(template);
                    assert(templates_view(nodes@) =~= before.push(template@));
                },
                Instruction::Else { .. } => {
                    return Err(Error::OptimizerInvariant);
                },
                Instruction::View(id) => {
                    if !idle {
                        return Err(Error::OptimizerInvariant);
                    }
                    let view = match self.consts.lookup_value(ValueId(id)) {
                        Some(view) => view.duplicate(),
                        None => {
                            return Err(Error::OptimizerInvariant);
                        },
                    };
                    let template = Template::View(view);
                    nodes.push(template);
                    assert(templates_view(nodes@) =~= before.push(template@));
                    ip += 1;
                },
            }
        }
        if attributes.len() == 0 && text.is_none() {
            assert(attributes@ =~= Seq::<(Seq<char>, Term)>::empty());
            Ok(nodes)
        } else {
            Err(Error::OptimizerInvariant)
        }
    }

    /// Assembles the block of `size` instructions behind the one at `ip`.
    fn body(&self, ip: usize, size: usize) -> (r: Result<Vec<Template>, Error>)
        requires
            ip < self.instructions@.len(),
        ensures
            if block_fits(self.instructions@, ip as int, size) {
                assembled(
                    assemble(
                        self.instructions@.subrange(ip + 1, ip + 1 + size),
                        self.consts@,
                    ),
                    r,
                )
            } else {
                r is Err && r->Err_0 is OptimizerInvariant
            },
        decreases self.instructions().len(), 1int,
    {
        if size > self.instructions.len() - ip - 1 {
            return Err(Error::OptimizerInvariant);
        }
        let mut block: Vec<Instruction> = Vec::new();
        let mut k: usize = 0;
        while k < size
            invariant
                k <= size,
                ip + 1 + size <= self.instructions.len(),
                block@ == self.instructions@.subrange(ip + 1, ip + 1 + k),
            decreases size - k,
        {
            block.push(self.instructions[ip + 1 + k]);
            assert(self.instructions@.subrange(ip + 1, ip + 1 + k + 1)
                =~= self.instructions@.subrange(ip + 1, ip + 1 + k).push(
                self.instructions@[ip + 1 + k],
            ));
            k += 1;
        }
        let scope = Scope::new(block, self.consts);
        scope.assemble_all()
    }

    /// Makes the node of the instruction at `ip` out of what was loaded for
    /// it and of the instructions of its scope.
    fn node(
        &self,
        ident: usize,
        scope_size: usize,
        ip: usize,
        attributes: Attributes,
        text: Option<Text>,
    ) -> (r: Result<Template, Error>)
        requires
            ip < self.instructions@.len(),
        ensures
            match (
                block_fits(self.instructions@, ip as int, scope_size),
                string_at(self.consts@, ident),
                assemble(
                    self.instructions@.subrange(ip + 1, ip + 1 + scope_size),
                    self.consts@,
                ),
            ) {
                (true, Some(name), Some(children)) => r is Ok && r->Ok_0@ == (Tpl::Node {
                    ident: name,
                    attributes: attributes@,
                    text: text_view(text),
                    children,
                }),
                _ => r is Err && r->Err_0 is OptimizerInvariant,
            },
        decreases self.instructions().len(), 2int,
    {
        let children = match self.body(ip, scope_size) {
            Ok(children) => children,
            Err(e) => {
                return Err(e);
            },
        };
        let ident = match self.consts.lookup_string(StringId(ident)) {
            Some(ident) => ident.clone(),
            None => {
                return Err(Error::OptimizerInvariant);
            },
        };
        proof {
            lemma_node_view(ident, attributes, text, children);
        }
        Ok(Template::Node { ident, attributes, text, children })
    }

    /// Looks up the text with the id `id` and each of its parts.
    fn text(&self, id: usize) -> (r: Option<Text>)
        ensures
            text_view(r) == text_at(self.consts@, id),
    {
        let path = match self.consts.lookup_text(TextId(id)) {
            Some(path) => path,
            None => {
                return None;
            },
        };
        let ghost pool = self.consts@;
        let mut fragments: Vec<Fragment> = Vec::new();
        let mut k: usize = 0;
        assert(pieces_of(fragments@) =~= Seq::<Piece>::empty());
        while k < path.0.len()
            invariant
                k <= path.0.len(),
                pool == self.consts@,
                id < pool.texts.len(),
                path@ == pool.texts[id as int],
                pieces_at(path@, pool, k as int) == Some(pieces_of(fragments@)),
            decreases path.0.len() - k,
        {
            let ghost before = pieces_of(fragments@);
            let fragment = match path.0[k] {
                TextPart::Literal(sid) => match self.consts.lookup_string(sid) {
                    Some(s) => Fragment::String(s.clone()),
                    None => {
                        proof {
                            assert(piece_of(path@[k as int], pool) is None);
                            assert(pieces_at(path@, pool, k + 1) is None);
                            lemma_pieces_fail(path@, pool, k + 1, path@.len() as int);
                        }
                        return None;
                    },
                },
                TextPart::Path(vid) => match self.consts.lookup_value(vid) {
                    Some(e) => Fragment::Data(e.duplicate()),
                    None => {
                        proof {
                            assert(piece_of(path@[k as int], pool) is None);
                            assert(pieces_at(path@, pool, k + 1) is None);
                            lemma_pieces_fail(path@, pool, k + 1, path@.len() as int);
                        }
                        return None;
                    },
                },
            };
            fragments.push(fragment);
            assert(pieces_of(fragments@) =~= before.push(fragment@));
            k += 1;
        }
        let ghost pieces = pieces_of(fragments@);
        if fragments.len() == 1 && fragments[0].is_string() {
            assert(pieces[0] == fragments@[0]@);
            match fragments.pop() {
                Some(Fragment::String(s)) => Some(Text::String(s)),
                _ => None,
            }
        } else {
            if fragments.len() == 1 {
                assert(pieces[0] == fragments@[0]@);
            }
            Some(Text::Fragments(fragments))
        }
    }
}

/// Once a part cannot be looked up, the text cannot.
pub proof fn lemma_pieces_fail(parts: Seq<TextPart>, pool: Pool, n: int, m: int)
    requires
        n <= m,
        pieces_at(parts, pool, n) is None,
    ensures
        pieces_at(parts, pool, m) is None,
    decreases m - n,
{
    if n < m {
        lemma_pieces_fail(parts, pool, n, m - 1);
    }
}

} // verus!
