//! The symbol table: each label's word offset and where it was declared.
use vstd::prelude::*;
use crate::node::Span;
use vstd::utf8::encode_utf8;

verus! {

/// A label, its word offset from the origin, and its declaration.
#[derive(Debug)]
pub struct Symbol {
    pub name: String,
    pub offset: usize,
    pub span: Span,
}

/// A table entry over plain values: name, offset, declaration span.
pub type SymbolView = (Seq<char>, int, Span);

/// The labels of a program in declaration order.
#[derive(Debug)]
pub struct SymbolTable {
    entries: Vec<Symbol>,
}

/// The position of the entry named `name`: the last one, should there be several.
pub open spec fn find_symbol(t: Seq<SymbolView>, name: Seq<char>) -> Option<int>
    decreases t.len(),
{
    if t.len() == 0 {
        None
    } else if t.last().0 == name {
        Some(t.len() - 1)
    } else {
        find_symbol(t.drop_last(), name)
    }
}

/// The names of the entries, in order.
pub open spec fn symbol_names(t: Seq<SymbolView>) -> Seq<Seq<char>> {
    t.map_values(|e: SymbolView| e.0)
}

/// No name occurs twice.
pub open spec fn names_unique(t: Seq<SymbolView>) -> bool {
    forall|i: int, j: int| 0 <= i < j < t.len() ==> t[i].0 != t[j].0
}

pub proof fn lemma_find_symbol(t: Seq<SymbolView>, name: Seq<char>)
    ensures
        find_symbol(t, name) is Some ==> {
            let k = find_symbol(t, name).unwrap();
            0 <= k < t.len() && t[k].0 == name
        },
        find_symbol(t, name) is None <==> forall|i: int| 0 <= i < t.len() ==> t[i].0 != name,
    decreases t.len(),
{
    if t.len() > 0 {
        lemma_find_symbol(t.drop_last(), name);
        if t.last().0 != name {
            assert forall|i: int| 0 <= i < t.len() - 1 implies t[i] == t.drop_last()[i] by {}
        }
    }
}

impl View for SymbolTable {
    type V = Seq<SymbolView>;

    closed spec fn view(&self) -> Seq<SymbolView> {
        self.entries@.map_values(|s: Symbol| (s.name@, s.offset as int, s.span))
    }
}

impl SymbolTable {
    /// An empty table.
    pub fn new() -> (r: Self)
        ensures
            r@ == Seq::<SymbolView>::empty(),
    {
        let r = SymbolTable { entries: Vec::new() };
        assert(r@ =~= Seq::<SymbolView>::empty());
        r
    }

    /// The number of entries.
    pub fn len(&self) -> (r: usize)
        ensures
            r == self@.len(),
    {
        self.entries.len()
    }

    /// The entry at position `i`, in declaration order.
    pub fn get(&self, i: usize) -> (r: &Symbol)
        requires
            i < self@.len(),
        ensures
            (r.name@, r.offset as int, r.span) == self@[i as int],
    {
        &self.entries[i]
    }

    /// The position of the entry named `name`.
    pub fn lookup(&self, name: &String) -> (r: Option<usize>)
        ensures
            r is Some <==> find_symbol(self@, name@) is Some,
            r is Some ==> r.unwrap() as int == find_symbol(self@, name@).unwrap(),
    {
        let mut i: usize = self.entries.len();
        assert(self@.take(i as int) =~= self@);
        while i > 0
            invariant
                i <= self@.len(),
                find_symbol(self@, name@) == find_symbol(self@.take(i as int), name@),
            decreases i,
        {
            let k = i - 1;
            assert(self@.take(i as int).drop_last() =~= self@.take(k as int));
            if self.entries[k].name == *name {
                return Some(k);
            }
            i = k;
        }
        None
    }

    /// Adds a label that is not in the table yet.
    pub fn insert(&mut self, name: String, offset: usize, span: Span)
        requires
            find_symbol(old(self)@, name@) is None,
        ensures
            final(self)@ == old(self)@.push((name@, offset as int, span)),
    {
        self.entries.push(Symbol { name, offset, span });
        assert(final(self)@ =~= old(self)@.push((name@, offset as int, span)));
    }

    /// The names of all entries, in declaration order.
    pub fn names(&self) -> (r: Vec<String>)
        ensures
            r@.map_values(|k: String| k@) == symbol_names(self@),
    {
        let mut r: Vec<String> = Vec::new();
        let mut i: usize = 0;
        while i < self.entries.len()
            invariant
                i <= self@.len(),
                r@.len() == i,
                forall|j: int| 0 <= j < i ==> r@[j]@ == #[trigger] self@[j].0,
            decreases self@.len() - i,
        {
            let n = self.entries[i].name.clone();
            assert(n@ == self@[i as int].0);
            r.push(n);
            i = i + 1;
        }
        assert(r@.map_values(|k: String| k@) =~= symbol_names(self@));
        r
    }
}

/// The two header lines of a listing.
pub open spec fn table_header() -> Seq<char> {
    seq!['/', '/', 'S', 'y', 'm', 'b', 'o', 'l', ' ', 'N', 'a', 'm', 'e', '\t', '\t', 'P', 'a', 'g', 'e', ' ', 'A', 'd', 'd', 'r', 'e', 's', 's', '\n', '/', '/', '-', '-', '-', '-', '-', '-', '-', '-', '-', '-', '-', '-', '-', '-', '-', '-', '\t', '-', '-', '-', '-', '-', '-', '-', '-', '-', '-', '-', '-', '\n']
}

/// The upper-case hexadecimal digits.
pub open spec fn hex_chars() -> Seq<char> {
    seq!['0', '1', '2', '3', '4', '5', '6', '7', '8', '9', 'A', 'B', 'C', 'D', 'E', 'F']
}

/// The hexadecimal digits of `n`, without leading zeros.
pub open spec fn hex_digits(n: nat) -> Seq<char>
    decreases n,
{
    if n < 16 {
        seq![hex_chars()[n as int]]
    } else {
        hex_digits(n / 16).push(hex_chars()[(n % 16) as int])
    }
}

/// `n` in upper-case hexadecimal, at least four digits.
pub open spec fn hex4(n: nat) -> Seq<char> {
    let d = hex_digits(n);
    if d.len() < 4 {
        Seq::new((4 - d.len()) as nat, |i: int| '0') + d
    } else {
        d
    }
}

/// The spaces that bring a name to the address column: the name's UTF-8
/// length and the spaces make 24 bytes, or none for a longer name.
pub open spec fn pad_width(name: Seq<char>) -> nat {
    if encode_utf8(name).len() < 24 {
        (24 - encode_utf8(name).len()) as nat
    } else {
        0
    }
}

/// The listing line of one label.
pub open spec fn listing_line(e: SymbolView, entry: nat) -> Seq<char> {
    seq!['/', '/', '\t'] + e.0 + Seq::new(pad_width(e.0), |i: int| ' ') + hex4((entry + e.1) as nat) + seq!['\n']
}

/// The lines of the labels at the given positions, in that order.
pub open spec fn listing_lines(t: Seq<SymbolView>, order: Seq<usize>, entry: nat) -> Seq<char>
    decreases order.len(),
{
    if order.len() == 0 {
        Seq::empty()
    } else {
        listing_lines(t, order.drop_last(), entry) + listing_line(t[order.last() as int], entry)
    }
}

/// Strict lexicographic order on character sequences.
pub open spec fn seq_lt(a: Seq<char>, b: Seq<char>) -> bool
    decreases a.len(),
{
    if a.len() == 0 {
        b.len() > 0
    } else if b.len() == 0 {
        false
    } else if a[0] != b[0] {
        (a[0] as u32) < (b[0] as u32)
    } else {
        seq_lt(a.drop_first(), b.drop_first())
    }
}

/// `order` lists every position of `t` once, by name.
pub open spec fn sorted_order(t: Seq<SymbolView>, order: Seq<usize>) -> bool {
    &&& order.len() == t.len()
    &&& order.no_duplicates()
    &&& forall|j: int| 0 <= j < order.len() ==> #[trigger] order[j] < t.len()
    &&& forall|j: int| 0 <= j < order.len() - 1 ==> !seq_lt(t[order[j + 1] as int].0, #[trigger] t[order[j] as int].0)
}

proof fn lemma_seq_lt_asym(a: Seq<char>, b: Seq<char>)
    ensures
        seq_lt(a, b) ==> !seq_lt(b, a),
    decreases a.len(),
{
    if a.len() > 0 && b.len() > 0 && a[0] == b[0] {
        lemma_seq_lt_asym(a.drop_first(), b.drop_first());
    }
}

/// Whether `a` comes strictly before `b`.
fn str_lt(a: &str, b: &str) -> (r: bool)
    ensures
        r == seq_lt(a@, b@),
{
    let na = a.unicode_len();
    let nb = b.unicode_len();
    let mut i: usize = 0;
    assert(a@.skip(0) =~= a@);
    assert(b@.skip(0) =~= b@);
    while i < na && i < nb
        invariant
            na == a@.len(),
            nb == b@.len(),
            i <= na,
            i <= nb,
            seq_lt(a@, b@) == seq_lt(a@.skip(i as int), b@.skip(i as int)),
        decreases na - i,
    {
        let ca = a.get_char(i);
        let cb = b.get_char(i);
        assert(a@.skip(i as int)[0] == ca);
        assert(b@.skip(i as int)[0] == cb);
        if ca != cb {
            return (ca as u32) < (cb as u32);
        }
        assert(a@.skip(i as int).drop_first() =~= a@.skip(i + 1));
        assert(b@.skip(i as int).drop_first() =~= b@.skip(i + 1));
        i = i + 1;
    }
    i < nb
}

/// The hexadecimal digit of `d`.
fn hex_str(d: u8) -> (r: &'static str)
    requires
        d < 16,
    ensures
        r@ == seq![hex_chars()[d as int]],
{
    match d {
        0 => {
            proof { reveal_strlit("0"); }
            "0"
        },
        1 => {
            proof { reveal_strlit("1"); }
            "1"
        },
        2 => {
            proof { reveal_strlit("2"); }
            "2"
        },
        3 => {
            proof { reveal_strlit("3"); }
            "3"
        },
        4 => {
            proof { reveal_strlit("4"); }
            "4"
        },
        5 => {
            proof { reveal_strlit("5"); }
            "5"
        },
        6 => {
            proof { reveal_strlit("6"); }
            "6"
        },
        7 => {
            proof { reveal_strlit("7"); }
            "7"
        },
        8 => {
            proof { reveal_strlit("8"); }
            "8"
        },
        9 => {
            proof { reveal_strlit("9"); }
            "9"
        },
        10 => {
            proof { reveal_strlit("A"); }
            "A"
        },
        11 => {
            proof { reveal_strlit("B"); }
            "B"
        },
        12 => {
            proof { reveal_strlit("C"); }
            "C"
        },
        13 => {
            proof { reveal_strlit("D"); }
            "D"
        },
        14 => {
            proof { reveal_strlit("E"); }
            "E"
        },
        15 => {
            proof { reveal_strlit("F"); }
            "F"
        },
        _ => {
            proof { reveal_strlit("F"); }
            "F"
        },
    }
}

/// The number of hexadecimal digits of `n`.
fn hex_len(n: u128) -> (r: usize)
    ensures
        r == hex_digits(n as nat).len(),
        r <= 32,
    decreases n,
{
    if n < 16 {
        1
    } else {
        let k = hex_len(n / 16);
        proof { assert(hex_digits((n / 16) as nat).len() < 32) by { lemma_hex_len_bound(n as nat); } }
        k + 1
    }
}

proof fn lemma_hex_len_bound(n: nat)
    requires
        n >= 16,
        n <= u128::MAX,
    ensures
        hex_digits(n / 16).len() < 32,
{
    reveal_with_fuel(pow16, 33);
    assert(pow16(32) == 0x1_0000_0000_0000_0000_0000_0000_0000_0000nat);
    lemma_hex_len_le(n, 32);
}

proof fn lemma_hex_len_le(n: nat, k: nat)
    requires
        n < pow16(k),
        k >= 1,
    ensures
        hex_digits(n).len() <= k,
    decreases n,
{
    if n >= 16 {
        if k == 1 {
            assert(false);
        } else {
            assert(n / 16 < pow16((k - 1) as nat)) by (nonlinear_arith)
                requires
                    n < pow16(k),
                    pow16(k) == 16 * pow16((k - 1) as nat),
            ;
            lemma_hex_len_le(n / 16, (k - 1) as nat);
        }
    }
}

/// `16^k`.
pub open spec fn pow16(k: nat) -> nat
    decreases k,
{
    if k == 0 {
        1
    } else {
        16 * pow16((k - 1) as nat)
    }
}

/// Appends the hexadecimal digits of `n`.
fn append_hex(s: &mut String, n: u128)
    ensures
        final(s)@ == old(s)@ + hex_digits(n as nat),
    decreases n,
{
    if n >= 16 {
        append_hex(s, n / 16);
    }
    s.append(hex_str((n % 16) as u8));
    proof {
        if n >= 16 {
            assert(old(s)@ + hex_digits((n / 16) as nat) + seq![hex_chars()[(n % 16) as int]] =~= old(s)@ + hex_digits(n as nat));
        } else {
            assert(old(s)@ + seq![hex_chars()[(n % 16) as int]] =~= old(s)@ + hex_digits(n as nat));
        }
    }
}

/// Appends one listing line.
fn append_line(s: &mut String, sym: &Symbol, entry: usize)
    ensures
        final(s)@ == old(s)@ + listing_line((sym.name@, sym.offset as int, sym.span), entry as nat),
{
    proof { reveal_strlit("//\t"); reveal_strlit(" "); reveal_strlit("0"); reveal_strlit("\n"); }
    s.append("//\t");
    s.append(sym.name.as_str());
    let ghost mid = s@;
    let blen = sym.name.as_str().as_bytes().len();
    let pad: usize = if blen < 24 { 24 - blen } else { 0 };
    let mut i: usize = 0;
    while i < pad
        invariant
            i <= pad,
            s@ == mid + Seq::new(i as nat, |j: int| ' '),
        decreases pad - i,
    {
        proof { reveal_strlit(" "); }
        s.append(" ");
        i = i + 1;
        assert(s@ =~= mid + Seq::new(i as nat, |j: int| ' '));
    }
    let ghost padded = s@;
    let addr: u128 = entry as u128 + sym.offset as u128;
    let len = hex_len(addr);
    let mut z: usize = len;
    while z < 4
        invariant
            len <= z <= 4 || (len > 4 && z == len),
            s@ == padded + Seq::new((z - len) as nat, |j: int| '0'),
        decreases 4 - z,
    {
        proof { reveal_strlit("0"); }
        s.append("0");
        z = z + 1;
        assert(s@ =~= padded + Seq::new((z - len) as nat, |j: int| '0'));
    }
    let ghost zeroed = s@;
    append_hex(s, addr);
    s.append("\n");
    proof {
        let line = listing_line((sym.name@, sym.offset as int, sym.span), entry as nat);
        assert(pad == pad_width(sym.name@));
        assert(hex4((entry + sym.offset) as nat) =~= Seq::new((z - len) as nat, |j: int| '0') + hex_digits(addr as nat));
        assert(s@ =~= old(s)@ + line);
    }
}

impl SymbolTable {
    /// The positions of the entries, ordered by name.
    pub fn sorted_positions(&self) -> (r: Vec<usize>)
        ensures
            sorted_order(self@, r@),
    {
        let mut order: Vec<usize> = Vec::new();
        let mut k: usize = 0;
        while k < self.entries.len()
            invariant
                k <= self@.len(),
                order@.len() == k,
                order@.no_duplicates(),
                forall|j: int| 0 <= j < order@.len() ==> #[trigger] order@[j] < k,
                forall|j: int| 0 <= j < order@.len() - 1
                    ==> !seq_lt(self@[order@[j + 1] as int].0, #[trigger] self@[order@[j] as int].0),
            decreases self@.len() - k,
        {
            let name = self.entries[k].name.as_str();
            let mut p: usize = 0;
            while p < order.len() && !str_lt(name, self.entries[order[p]].name.as_str())
                invariant
                    p <= order@.len(),
                    forall|j: int| 0 <= j < order@.len() ==> #[trigger] order@[j] < k,
                    k < self@.len(),
                    name@ == self@[k as int].0,
                    forall|j: int| 0 <= j < p ==> !seq_lt(name@, #[trigger] self@[order@[j] as int].0),
                decreases order@.len() - p,
            {
                p = p + 1;
            }
            let ghost old_order = order@;
            proof {
                if p < old_order.len() {
                    lemma_seq_lt_asym(name@, self@[old_order[p as int] as int].0);
                }
            }
            order.insert(p, k);
            proof {
                assert forall|j: int| 0 <= j < order@.len() implies #[trigger] order@[j] < k + 1 by {
                    if j < p {
                        assert(order@[j] == old_order[j]);
                    } else if j > p {
                        assert(order@[j] == old_order[j - 1]);
                    }
                }
                assert forall|a: int, b: int| 0 <= a < b < order@.len() implies order@[a] != order@[b] by {
                    if a != p && b != p {
                        let oa = if a < p { a } else { a - 1 };
                        let ob = if b < p { b } else { b - 1 };
                        assert(order@[a] == old_order[oa]);
                        assert(order@[b] == old_order[ob]);
                    } else if a == p {
                        let ob = if b < p { b } else { b - 1 };
                        assert(order@[b] == old_order[ob]);
                    } else {
                        let oa = if a < p { a } else { a - 1 };
                        assert(order@[a] == old_order[oa]);
                    }
                }
                assert forall|j: int| 0 <= j < order@.len() - 1 implies
                    !seq_lt(self@[order@[j + 1] as int].0, #[trigger] self@[order@[j] as int].0) by {
                    if j + 1 < p {
                        assert(order@[j] == old_order[j]);
                        assert(order@[j + 1] == old_order[j + 1]);
                    } else if j > p {
                        assert(order@[j] == old_order[j - 1]);
                        assert(order@[j + 1] == old_order[j]);
                    } else if j + 1 == p {
                        assert(order@[j] == old_order[j]);
                    } else {
                        assert(order@[j + 1] == old_order[j]);
                    }
                }
            }
            k = k + 1;
        }
        order
    }
}

/// Renders the table as a listing: two header lines, then one line per label
/// in order of name, holding the name padded to its column and the address
/// `entry + offset` in at least four upper-case hexadecimal digits.
pub fn table_to_string(sym: &SymbolTable, entry: usize) -> (r: String)
    ensures
        exists|order: Seq<usize>| #![trigger listing_lines(sym@, order, entry as nat)]
            sorted_order(sym@, order) && r@ == table_header() + listing_lines(sym@, order, entry as nat),
{
    let order = sym.sorted_positions();
    proof { reveal_strlit("//Symbol Name\t\tPage Address\n//----------------\t------------\n"); }
    let mut s = String::from_str("//Symbol Name\t\tPage Address\n//----------------\t------------\n");
    assert(s@ =~= table_header());
    let mut i: usize = 0;
    while i < order.len()
        invariant
            i <= order@.len(),
            sorted_order(sym@, order@),
            s@ == table_header() + listing_lines(sym@, order@.take(i as int), entry as nat),
        decreases order@.len() - i,
    {
        let sy = sym.get(order[i]);
        append_line(&mut s, sy, entry);
        assert(order@.take(i + 1).drop_last() =~= order@.take(i as int));
        i = i + 1;
    }
    assert(order@.take(i as int) =~= order@);
    s
}

} // verus!
