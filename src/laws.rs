//! What holds of every assembly.
use vstd::prelude::*;
use crate::assembler::{assembled, encode, instr_parts, lemma_encode_err_prefix, lemma_instr_width, lemma_parts_len, lemma_passes_agree, lemma_resolve_err_prefix, lemma_resolve_ok_prefix, lemma_words_bits_len, node_bits, parts_bits, parts_width, resolve, zero_words, Resolved};
use crate::error::{ErrorView, Field};
use crate::escape::{string_words, unescaped};
use crate::node::{Instr, Node, Operand, PcOp};
use crate::symbol_table::{find_symbol, lemma_find_symbol, symbol_names, SymbolView};
use crate::util::{literal_value, pc_target, register_value, PcTargetView};
use vstd::arithmetic::power2::lemma2_to64;
use crate::writer::{field_bits, fits_signed};

verus! {

/// The words that the first pass counts for a node.
pub open spec fn node_words(n: Node) -> int {
    match n {
        Node::Instruction { .. } => 1,
        Node::TrapCode { .. } => 1,
        Node::Fill { .. } => 1,
        Node::Blkw { count } => match literal_value(count.text@) {
            Some(v) => v,
            None => 0,
        },
        Node::Stringz { text, .. } => match unescaped(text.text@) {
            Some(u) => string_words(u).len() as int,
            None => 0,
        },
        _ => 0,
    }
}

/// The words counted for a sequence of nodes.
pub open spec fn words_total(nodes: Seq<Node>) -> int
    decreases nodes.len(),
{
    if nodes.len() == 0 {
        0
    } else {
        words_total(nodes.drop_last()) + node_words(nodes.last())
    }
}

proof fn lemma_offset_is_words_total(nodes: Seq<Node>)
    requires
        resolve(nodes) is Ok,
    ensures
        resolve(nodes)->Ok_0.offset == words_total(nodes),
    decreases nodes.len(),
{
    if nodes.len() > 0 {
        lemma_resolve_ok_prefix(nodes, nodes.len() - 1);
        assert(nodes.take(nodes.len() - 1) =~= nodes.drop_last());
        lemma_offset_is_words_total(nodes.drop_last());
    }
}

/// Assembly depends on the nodes alone: the same nodes give the same image,
/// the same symbol table and the same error.
pub proof fn assembly_is_deterministic(a: Seq<Node>, b: Seq<Node>)
    requires
        a == b,
    ensures
        assembled(a) == assembled(b),
        resolve(a) == resolve(b),
{
}

/// Every label's offset is the number of words that the constructs before
/// its declaration occupy, and the second pass reaches the label having
/// counted exactly as many words.
pub proof fn label_offset_counts_preceding_words(nodes: Seq<Node>, i: int)
    requires
        resolve(nodes) is Ok,
        0 <= i < nodes.len(),
        nodes[i] is LabelDecl,
    ensures
        find_symbol(resolve(nodes)->Ok_0.symbols, nodes[i]->LabelDecl_name@) matches Some(k)
            && resolve(nodes)->Ok_0.symbols[k].1 == words_total(nodes.take(i)),
        forall|syms: Seq<SymbolView>| #[trigger] encode(nodes.take(i), syms) is Ok
            ==> encode(nodes.take(i), syms)->Ok_0.1 == words_total(nodes.take(i)),
    decreases nodes.len(),
{
    let name = nodes[i]->LabelDecl_name@;
    lemma_resolve_ok_prefix(nodes, i);
    lemma_offset_is_words_total(nodes.take(i));
    assert forall|syms: Seq<SymbolView>| #[trigger] encode(nodes.take(i), syms) is Ok
        implies encode(nodes.take(i), syms)->Ok_0.1 == words_total(nodes.take(i)) by {
        lemma_passes_agree(nodes.take(i), syms);
    }
    lemma_resolve_ok_prefix(nodes, nodes.len() - 1);
    assert(nodes.take(nodes.len() - 1) =~= nodes.drop_last());
    let st = resolve(nodes.drop_last())->Ok_0;
    if i == nodes.len() - 1 {
        assert(nodes.take(i) =~= nodes.drop_last());
        lemma_find_symbol(st.symbols, name);
        let t = st.symbols.push((name, st.offset, nodes[i]->LabelDecl_span));
        lemma_find_symbol(t, name);
    } else {
        assert(nodes.drop_last().take(i) =~= nodes.take(i));
        label_offset_counts_preceding_words(nodes.drop_last(), i);
        let k = find_symbol(st.symbols, name).unwrap();
        lemma_find_symbol(st.symbols, name);
        if let Node::LabelDecl { name: n2, span } = nodes.last() {
            lemma_find_symbol(st.symbols, n2@);
            let t = st.symbols.push((n2@, st.offset, span));
            assert(n2@ != name);
            assert(t.drop_last() =~= st.symbols);
        }
    }
}

/// After every node, the bits written make whole bytes (indeed whole words).
pub proof fn encoding_is_byte_aligned(n: Node, syms: Seq<SymbolView>, current: int)
    ensures
        node_bits(n, syms, current) matches Ok(b) ==> b.len() % 16 == 0 && b.len() % 8 == 0,
{
    match n {
        Node::Instruction { instr, .. } => {
            lemma_instr_width(instr);
            if parts_bits(instr_parts(instr), syms, current) is Ok {
                lemma_parts_len(instr_parts(instr), syms, current);
            }
        },
        Node::Blkw { count } => {
            if let Some(v) = literal_value(count.text@) {
                if v >= 0 {
                    lemma_words_bits_len(zero_words(v as nat));
                }
            }
        },
        Node::Stringz { text, .. } => {
            if let Some(u) = unescaped(text.text@) {
                lemma_words_bits_len(string_words(u));
            }
        },
        _ => {},
    }
}

/// Each node emits 16 bits for each word it occupies: one for an origin, and
/// for every other node the words that the first pass counts for it.
pub proof fn node_emits_its_words(n: Node, syms: Seq<SymbolView>, current: int)
    ensures
        node_bits(n, syms, current) matches Ok(b) ==> b.len() == 16 * (if n is Orig { 1 } else { node_words(n) }),
{
    match n {
        Node::Instruction { instr, .. } => {
            lemma_instr_width(instr);
            if parts_bits(instr_parts(instr), syms, current) is Ok {
                lemma_parts_len(instr_parts(instr), syms, current);
            }
        },
        Node::Blkw { count } => {
            if let Some(v) = literal_value(count.text@) {
                if v >= 0 {
                    lemma_words_bits_len(zero_words(v as nat));
                }
            }
        },
        Node::Stringz { text, .. } => {
            if let Some(u) = unescaped(text.text@) {
                lemma_words_bits_len(string_words(u));
            }
        },
        _ => {},
    }
}

/// After every prefix of the nodes, the bits written so far make whole bytes.
pub proof fn encoded_prefix_is_byte_aligned(nodes: Seq<Node>, syms: Seq<SymbolView>)
    ensures
        encode(nodes, syms) matches Ok(p) ==> p.0.len() % 16 == 0 && p.0.len() % 8 == 0,
    decreases nodes.len(),
{
    if nodes.len() > 0 {
        encoded_prefix_is_byte_aligned(nodes.drop_last(), syms);
        if let Ok(p) = encode(nodes.drop_last(), syms) {
            encoding_is_byte_aligned(nodes.last(), syms, p.1);
        }
    }
}

/// A branch to a label at word `t`, from the instruction at word `k`, holds
/// `t - k - 1` in its 9-bit offset field, or fails with a field overflow
/// when that does not fit.
pub proof fn branch_offset_is_pc_relative(flags: Operand, target: Operand, span: crate::node::Span, syms: Seq<SymbolView>, k: int)
    requires
        pc_target(target.text@) matches Some(PcTargetView::Symbol(name)) && find_symbol(syms, name) is Some,
    ensures
        ({
            let name = pc_target(target.text@)->Some_0->Symbol_0;
            let t = syms[find_symbol(syms, name)->Some_0].1;
            let d = t - k - 1;
            let r = node_bits(Node::Instruction { instr: Instr::Br { flags, target }, span }, syms, k);
            &&& fits_signed(9, d) ==> (r matches Ok(b) && b.len() == 16 && b.subrange(7, 16) == field_bits(9, d))
            &&& !fits_signed(9, d) ==> r == Err::<Seq<bool>, ErrorView>(
                ErrorView::FieldOverflow { field: Field::PcOffset, value: d, span: target.span },
            )
        }),
{
    let ps = instr_parts(Instr::Br { flags, target });
    reveal_with_fuel(parts_bits, 6);
    let name = pc_target(target.text@)->Some_0->Symbol_0;
    let t = syms[find_symbol(syms, name)->Some_0].1;
    let d = t - k - 1;
    if fits_signed(9, d) {
        let pre = parts_bits(ps.take(4), syms, k)->Ok_0;
        assert(ps.take(4) =~= ps.drop_last());
        assert(parts_bits(ps.take(4), syms, k) is Ok);
        lemma_parts_len(ps.take(4), syms, k);
        reveal_with_fuel(parts_width, 5);
        let b = pre + field_bits(9, d);
        assert(b.subrange(7, 16) =~= field_bits(9, d));
    }
}

/// The same for a load or store addressed by a label, whose register operand
/// is a valid register.
pub proof fn load_offset_is_pc_relative(op: PcOp, reg: Operand, target: Operand, span: crate::node::Span, syms: Seq<SymbolView>, k: int)
    requires
        register_value(reg.text@) matches Some(v) && 0 <= v < 8,
        pc_target(target.text@) matches Some(PcTargetView::Symbol(name)) && find_symbol(syms, name) is Some,
    ensures
        ({
            let name = pc_target(target.text@)->Some_0->Symbol_0;
            let t = syms[find_symbol(syms, name)->Some_0].1;
            let d = t - k - 1;
            let r = node_bits(Node::Instruction { instr: Instr::PcRel { op, reg, target }, span }, syms, k);
            &&& fits_signed(9, d) ==> (r matches Ok(b) && b.len() == 16 && b.subrange(7, 16) == field_bits(9, d))
            &&& !fits_signed(9, d) ==> r == Err::<Seq<bool>, ErrorView>(
                ErrorView::FieldOverflow { field: Field::PcOffset, value: d, span: target.span },
            )
        }),
{
    lemma2_to64();
    reveal_with_fuel(parts_bits, 4);
    let name = pc_target(target.text@)->Some_0->Symbol_0;
    let t = syms[find_symbol(syms, name)->Some_0].1;
    let d = t - k - 1;
    let v = register_value(reg.text@)->Some_0;
    if fits_signed(9, d) {
        let b = field_bits(4, crate::assembler::pc_opcode(op)) + field_bits(3, v) + field_bits(9, d);
        assert(b.subrange(7, 16) =~= field_bits(9, d));
    }
}

/// The same for a subroutine call, whose offset field has 11 bits.
pub proof fn call_offset_is_pc_relative(target: Operand, span: crate::node::Span, syms: Seq<SymbolView>, k: int)
    requires
        pc_target(target.text@) matches Some(PcTargetView::Symbol(name)) && find_symbol(syms, name) is Some,
    ensures
        ({
            let name = pc_target(target.text@)->Some_0->Symbol_0;
            let t = syms[find_symbol(syms, name)->Some_0].1;
            let d = t - k - 1;
            let r = node_bits(Node::Instruction { instr: Instr::Jsr { target }, span }, syms, k);
            &&& fits_signed(11, d) ==> (r matches Ok(b) && b.len() == 16 && b.subrange(5, 16) == field_bits(11, d))
            &&& !fits_signed(11, d) ==> r == Err::<Seq<bool>, ErrorView>(
                ErrorView::FieldOverflow { field: Field::PcOffset, value: d, span: target.span },
            )
        }),
{
    reveal_with_fuel(parts_bits, 3);
    let name = pc_target(target.text@)->Some_0->Symbol_0;
    let t = syms[find_symbol(syms, name)->Some_0].1;
    let d = t - k - 1;
    if fits_signed(11, d) {
        let b = field_bits(5, 0b01001) + field_bits(11, d);
        assert(b.subrange(5, 16) =~= field_bits(11, d));
    }
}

/// A label declared a second time makes the assembly fail with a duplicate
/// symbol error that points at both declarations, provided nothing failed
/// before the second one.
pub proof fn duplicate_label_is_rejected(nodes: Seq<Node>, i: int, j: int)
    requires
        0 <= i < j < nodes.len(),
        nodes[i] is LabelDecl,
        nodes[j] is LabelDecl,
        nodes[i]->LabelDecl_name@ == nodes[j]->LabelDecl_name@,
        forall|m: int| 0 <= m < j && m != i && #[trigger] nodes[m] is LabelDecl
            ==> nodes[m]->LabelDecl_name@ != nodes[i]->LabelDecl_name@,
        resolve(nodes.take(j)) is Ok,
    ensures
        resolve(nodes) == Err::<Resolved, ErrorView>(ErrorView::DuplicateSymbol {
            name: nodes[j]->LabelDecl_name@,
            span: nodes[j]->LabelDecl_span,
            first: nodes[i]->LabelDecl_span,
        }),
        assembled(nodes) == Err::<Seq<u8>, ErrorView>(ErrorView::DuplicateSymbol {
            name: nodes[j]->LabelDecl_name@,
            span: nodes[j]->LabelDecl_span,
            first: nodes[i]->LabelDecl_span,
        }),
{
    let name = nodes[i]->LabelDecl_name@;
    let pre = nodes.take(j);
    label_offset_counts_preceding_words(pre, i);
    let st = resolve(pre)->Ok_0;
    let k = find_symbol(st.symbols, name)->Some_0;
    lemma_first_span(pre, i);
    assert(nodes.take(j + 1).drop_last() =~= pre);
    assert(resolve(nodes.take(j + 1)) is Err);
    lemma_resolve_err_prefix(nodes, j + 1);
}

/// Where the first pass succeeds, no two entries of its table share a name.
pub proof fn resolved_labels_are_distinct(nodes: Seq<Node>)
    requires
        resolve(nodes) is Ok,
    ensures
        crate::symbol_table::names_unique(resolve(nodes)->Ok_0.symbols),
{
    crate::assembler::lemma_resolve_bounds(nodes);
}

/// The entry that the first pass made for the only declaration of a name
/// carries that declaration's span.
proof fn lemma_first_span(nodes: Seq<Node>, i: int)
    requires
        resolve(nodes) is Ok,
        0 <= i < nodes.len(),
        nodes[i] is LabelDecl,
        forall|m: int| 0 <= m < nodes.len() && m != i && #[trigger] nodes[m] is LabelDecl
            ==> nodes[m]->LabelDecl_name@ != nodes[i]->LabelDecl_name@,
    ensures
        find_symbol(resolve(nodes)->Ok_0.symbols, nodes[i]->LabelDecl_name@) matches Some(k)
            && resolve(nodes)->Ok_0.symbols[k].2 == nodes[i]->LabelDecl_span,
    decreases nodes.len(),
{
    let name = nodes[i]->LabelDecl_name@;
    lemma_resolve_ok_prefix(nodes, nodes.len() - 1);
    assert(nodes.take(nodes.len() - 1) =~= nodes.drop_last());
    let st = resolve(nodes.drop_last())->Ok_0;
    if i == nodes.len() - 1 {
        let t = st.symbols.push((name, st.offset, nodes[i]->LabelDecl_span));
        lemma_find_symbol(st.symbols, name);
        assert(resolve(nodes)->Ok_0.symbols == t);
        assert(find_symbol(t, name) == Some(t.len() - 1));
    } else {
        let last = nodes.len() - 1;
        assert(nodes[last] == nodes.last());
        assert(nodes[last] is LabelDecl ==> nodes[last]->LabelDecl_name@ != name);
        assert forall|m: int| 0 <= m < nodes.drop_last().len() && m != i && #[trigger] nodes.drop_last()[m] is LabelDecl
            implies nodes.drop_last()[m]->LabelDecl_name@ != name by {
            assert(nodes.drop_last()[m] == nodes[m]);
        }
        assert(nodes.drop_last()[i] == nodes[i]);
        lemma_first_span(nodes.drop_last(), i);
        if let Node::LabelDecl { name: n2, span } = nodes.last() {
            lemma_find_symbol(st.symbols, n2@);
            let t = st.symbols.push((n2@, st.offset, span));
            assert(t.drop_last() =~= st.symbols);
            assert(resolve(nodes)->Ok_0.symbols == t);
            assert(find_symbol(t, name) == find_symbol(st.symbols, name));
            lemma_find_symbol(st.symbols, name);
            let k = find_symbol(st.symbols, name)->Some_0;
            assert(t[k] == st.symbols[k]);
        } else {
            assert(resolve(nodes)->Ok_0.symbols == st.symbols);
        }
    }
}

proof fn lemma_branch_target_fails(flags: Operand, target: Operand, span: crate::node::Span, syms: Seq<SymbolView>, k: int)
    requires
        pc_target(target.text@) matches Some(PcTargetView::Symbol(name)) && find_symbol(syms, name) is None,
    ensures
        node_bits(Node::Instruction { instr: Instr::Br { flags, target }, span }, syms, k)
            == Err::<Seq<bool>, ErrorView>(ErrorView::UndefinedSymbol {
                name: target.text@,
                span: target.span,
                known: symbol_names(syms),
            }),
{
    reveal_with_fuel(parts_bits, 6);
}

/// A branch to a label that is not declared makes the assembly fail with an
/// undefined symbol error that lists every declared label, provided nothing
/// failed before the branch.
pub proof fn undefined_label_is_rejected(nodes: Seq<Node>, i: int)
    requires
        0 <= i < nodes.len(),
        resolve(nodes) is Ok,
        encode(nodes.take(i), resolve(nodes)->Ok_0.symbols) is Ok,
        nodes[i] matches Node::Instruction { instr: Instr::Br { target, .. }, .. }
            && pc_target(target.text@) matches Some(PcTargetView::Symbol(name))
            && find_symbol(resolve(nodes)->Ok_0.symbols, name) is None,
    ensures
        ({
            let target = nodes[i]->Instruction_instr->Br_target;
            assembled(nodes) == Err::<Seq<u8>, ErrorView>(ErrorView::UndefinedSymbol {
                name: target.text@,
                span: target.span,
                known: symbol_names(resolve(nodes)->Ok_0.symbols),
            })
        }),
{
    let syms = resolve(nodes)->Ok_0.symbols;
    let cur = encode(nodes.take(i), syms)->Ok_0.1;
    if let Node::Instruction { instr: Instr::Br { flags, target }, span } = nodes[i] {
        lemma_branch_target_fails(flags, target, span, syms, cur);
    }
    assert(nodes.take(i + 1).drop_last() =~= nodes.take(i));
    assert(nodes.take(i + 1).last() == nodes[i]);
    assert(encode(nodes.take(i + 1), syms) is Err);
    lemma_encode_err_prefix(nodes, syms, i + 1);
}

} // verus!
