//! The JSON rendering of a topology tree used by the treemap report.

use vstd::prelude::*;
use crate::text::{dec_str, digit_char, push_char, push_decimal};
use crate::topology::TopologyNode;

verus! {

/// The text `humansize::format_size(bytes, humansize::BINARY)` produces.
pub uninterp spec fn humansize_binary(bytes: u64) -> Seq<char>;

/// Formats a byte count with `humansize` in binary units (`"1.50 KiB"`,
/// `"1 KiB"`, `"12 B"`).
///
/// Trusted: the text is what `humansize::format_size` returns for these
/// arguments, which depends on the count alone, and it holds no line break
/// (it is a number, a space and a unit symbol); its exact form (floating
/// point rounding) is not stated here.
#[verifier::external_body]
pub(crate) fn human_size(bytes: u64) -> (s: String)
    ensures
        s@ == humansize_binary(bytes),
        no_newline(s@),
{
    humansize::format_size(bytes, humansize::BINARY)
}

/// The lower-case hexadecimal digit of `d` (below 16).
pub open spec fn hex_digit(d: int) -> char {
    seq!['0', '1', '2', '3', '4', '5', '6', '7', '8', '9', 'a', 'b', 'c', 'd', 'e', 'f'][d]
}

/// How a character is written inside a JSON string: a double quote and a
/// backslash are preceded by a backslash, line feed, carriage return and tab
/// are written `\n`, `\r` and `\t`, other control characters as `\u00XX`,
/// and any other character as itself.
pub open spec fn escape_char(c: char) -> Seq<char> {
    if c == '"' {
        seq!['\\', '"']
    } else if c == '\\' {
        seq!['\\', '\\']
    } else if c == '\n' {
        seq!['\\', 'n']
    } else if c == '\r' {
        seq!['\\', 'r']
    } else if c == '\t' {
        seq!['\\', 't']
    } else if (c as u32) < 0x20 {
        seq!['\\', 'u', '0', '0', hex_digit(((c as u32) / 16) as int), hex_digit(((c as u32) % 16) as int)]
    } else {
        seq![c]
    }
}

/// `s` as the contents of a JSON string, each character escaped as needed.
#[verifier::opaque]
pub open spec fn escape_json(s: Seq<char>) -> Seq<char>
    decreases s.len(),
{
    if s.len() == 0 {
        s
    } else {
        escape_json(s.drop_last()) + escape_char(s.last())
    }
}

/// `t` holds no line break.
pub open spec fn no_newline(t: Seq<char>) -> bool {
    forall|i: int| 0 <= i < t.len() ==> t[i] != '\n'
}

/// The human-readable size of every node of the tree holds no line break.
pub open spec fn sizes_single_line(n: TopologyNode) -> bool
    decreases n,
{
    &&& no_newline(humansize_binary(n.size))
    &&& forall|i: int| 0 <= i < n.children.len() ==> sizes_single_line(#[trigger] n.children@[i])
}

/// `t` with `p` after every line break.
pub open spec fn after_breaks(t: Seq<char>, p: Seq<char>) -> Seq<char>
    decreases t.len(),
{
    if t.len() == 0 {
        t
    } else if t.last() == '\n' {
        after_breaks(t.drop_last(), p) + seq!['\n'] + p
    } else {
        after_breaks(t.drop_last(), p).push(t.last())
    }
}

/// `t` with `p` at the start of every line.
pub open spec fn indented(t: Seq<char>, p: Seq<char>) -> Seq<char> {
    p + after_breaks(t, p)
}

/// `n` spaces.
pub open spec fn spaces(n: nat) -> Seq<char> {
    Seq::new(n, |i: int| ' ')
}

pub open spec fn bool_text(b: bool) -> Seq<char> {
    if b {
        "true"@
    } else {
        "false"@
    }
}

/// The name and size lines of a node's JSON text.
pub open spec fn json_name_lines(n: TopologyNode, indent: nat) -> Seq<char> {
    let sp = spaces(2 * indent);
    sp + "{\n"@ + sp + "  \"name\": \""@ + escape_json(n.name@) + "\",\n"@ + sp + "  \"size\": "@
        + dec_str(n.size as nat) + ",\n"@ + sp + "  \"size_human\": \""@ + humansize_binary(n.size)
        + "\",\n"@
}

/// The flag and count lines of a node's JSON text.
pub open spec fn json_count_lines(n: TopologyNode, indent: nat) -> Seq<char> {
    let sp = spaces(2 * indent);
    sp + "  \"is_dir\": "@ + bool_text(n.is_dir) + ",\n"@ + sp + "  \"is_aggregated\": "@ + bool_text(
        n.is_aggregated,
    ) + ",\n"@ + sp + "  \"file_count\": "@ + dec_str(n.file_count as nat) + ",\n"@ + sp
        + "  \"dir_count\": "@ + dec_str(n.dir_count as nat) + ",\n"@
}

/// The JSON text of a node at indentation level `indent` (two spaces per level).
pub open spec fn json_of(n: TopologyNode, indent: nat) -> Seq<char>
    decreases n,
{
    let sp = spaces(2 * indent);
    json_name_lines(n, indent) + json_count_lines(n, indent) + (if n.children.len() == 0 {
        sp + "  \"children\": []\n"@
    } else {
        sp + "  \"children\": [\n"@ + children_json(n.children@, indent + 2) + sp + "  ]\n"@
    }) + sp + "}"@
}

/// The JSON texts of the nodes, each on its own lines, separated by commas.
pub open spec fn children_json(s: Seq<TopologyNode>, indent: nat) -> Seq<char>
    decreases s,
{
    if s.len() == 0 {
        Seq::empty()
    } else {
        leading_json(s.drop_last(), indent) + json_of(s.last(), indent) + "\n"@
    }
}

/// The JSON texts of the nodes, each followed by a comma and a line break.
pub open spec fn leading_json(s: Seq<TopologyNode>, indent: nat) -> Seq<char>
    decreases s,
{
    if s.len() == 0 {
        Seq::empty()
    } else {
        leading_json(s.drop_last(), indent) + json_of(s.last(), indent) + ",\n"@
    }
}

/// Indentation levels stay within `usize` throughout the tree.
pub open spec fn indent_fits(n: TopologyNode, indent: nat) -> bool
    decreases n,
{
    &&& indent + 2 <= usize::MAX
    &&& forall|i: int| 0 <= i < n.children.len() ==> indent_fits(#[trigger] n.children@[i], (indent + 2) as nat)
}

/// Whether the indentation levels of the tree, starting at `indent`, stay
/// within `usize`.
pub fn indent_fits_exec(n: &TopologyNode, indent: usize) -> (r: bool)
    ensures
        r == indent_fits(*n, indent as nat),
    decreases *n,
{
    if indent > usize::MAX - 2 {
        return false;
    }
    let mut i: usize = 0;
    while i < n.children.len()
        invariant
            i <= n.children.len(),
            indent + 2 <= usize::MAX,
            forall|j: int| 0 <= j < i ==> indent_fits(#[trigger] n.children@[j], (indent + 2) as nat),
        decreases n.children.len() - i,
    {
        if !indent_fits_exec(&n.children[i], indent + 2) {
            return false;
        }
        i = i + 1;
    }
    true
}

fn hex_digit_char(d: u32) -> (c: char)
    requires
        d < 16,
    ensures
        c == hex_digit(d as int),
{
    match d {
        0 => '0',
        1 => '1',
        2 => '2',
        3 => '3',
        4 => '4',
        5 => '5',
        6 => '6',
        7 => '7',
        8 => '8',
        9 => '9',
        10 => 'a',
        11 => 'b',
        12 => 'c',
        13 => 'd',
        14 => 'e',
        _ => 'f',
    }
}

fn push_escaped_char(out: &mut String, c: char)
    ensures
        final(out)@ == old(out)@ + escape_char(c),
{
    let x = c as u32;
    if c == '"' {
        push_char(out, '\\');
        push_char(out, '"');
    } else if c == '\\' {
        push_char(out, '\\');
        push_char(out, '\\');
    } else if c == '\n' {
        push_char(out, '\\');
        push_char(out, 'n');
    } else if c == '\r' {
        push_char(out, '\\');
        push_char(out, 'r');
    } else if c == '\t' {
        push_char(out, '\\');
        push_char(out, 't');
    } else if x < 0x20 {
        push_char(out, '\\');
        push_char(out, 'u');
        push_char(out, '0');
        push_char(out, '0');
        let hi = hex_digit_char(x / 16);
        let lo = hex_digit_char(x % 16);
        push_char(out, hi);
        push_char(out, lo);
    } else {
        push_char(out, c);
    }
    assert(final(out)@ =~= old(out)@ + escape_char(c));
}

fn push_escaped(out: &mut String, s: &str)
    ensures
        final(out)@ == old(out)@ + escape_json(s@),
{
    let v = crate::text::chars_of(s);
    let mut i: usize = 0;
    assert(out@ =~= old(out)@ + escape_json(v@.take(0))) by {
        reveal(escape_json);
    }
    while i < v.len()
        invariant
            i <= v.len(),
            v@ == s@,
            out@ == old(out)@ + escape_json(v@.take(i as int)),
        decreases v.len() - i,
    {
        let c = v[i];
        proof {
            reveal(escape_json);
            assert(v@.take(i + 1).drop_last() =~= v@.take(i as int));
        }
        push_escaped_char(out, c);
        i = i + 1;
        assert(out@ =~= old(out)@ + escape_json(v@.take(i as int))) by {
            reveal(escape_json);
        }
    }
    assert(v@.take(i as int) =~= s@);
}

fn push_spaces(out: &mut String, count: usize)
    ensures
        final(out)@ == old(out)@ + spaces(2 * count as nat),
{
    let mut i: usize = 0;
    while i < count
        invariant
            i <= count,
            out@ == old(out)@ + spaces(2 * i as nat),
        decreases count - i,
    {
        push_char(out, ' ');
        push_char(out, ' ');
        i = i + 1;
        assert(out@ =~= old(out)@ + spaces(2 * i as nat));
    }
}

fn push_bool(out: &mut String, b: bool)
    ensures
        final(out)@ == old(out)@ + bool_text(b),
{
    if b {
        out.append("true");
    } else {
        out.append("false");
    }
}

impl TopologyNode {
    #[verifier::rlimit(40)]
    fn push_name_lines(&self, s: &mut String, indent: usize)
        ensures
            final(s)@ == old(s)@ + json_name_lines(*self, indent as nat),
            no_newline(humansize_binary(self.size)),
    {
        let ghost s0 = s@;
        push_spaces(s, indent);
        s.append("{\n");
        push_spaces(s, indent);
        s.append("  \"name\": \"");
        push_escaped(s, self.name.as_str());
        s.append("\",\n");
        push_spaces(s, indent);
        s.append("  \"size\": ");
        push_decimal(s, self.size);
        s.append(",\n");
        push_spaces(s, indent);
        s.append("  \"size_human\": \"");
        let h = human_size(self.size);
        s.append(h.as_str());
        s.append("\",\n");
        assert(s@ =~= s0 + json_name_lines(*self, indent as nat));
    }

    #[verifier::rlimit(40)]
    fn push_count_lines(&self, s: &mut String, indent: usize)
        ensures
            final(s)@ == old(s)@ + json_count_lines(*self, indent as nat),
    {
        let ghost s0 = s@;
        push_spaces(s, indent);
        s.append("  \"is_dir\": ");
        push_bool(s, self.is_dir);
        s.append(",\n");
        push_spaces(s, indent);
        s.append("  \"is_aggregated\": ");
        push_bool(s, self.is_aggregated);
        s.append(",\n");
        push_spaces(s, indent);
        s.append("  \"file_count\": ");
        push_decimal(s, self.file_count);
        s.append(",\n");
        push_spaces(s, indent);
        s.append("  \"dir_count\": ");
        push_decimal(s, self.dir_count);
        s.append(",\n");
        assert(s@ =~= s0 + json_count_lines(*self, indent as nat));
    }

    /// Renders the node and its subtree as indented JSON text. No
    /// human-readable size in the tree holds a line break, and the text is
    /// the text at indentation 0 with `2 * indent` spaces at the start of
    /// every line.
    #[verifier::rlimit(60)]
    pub fn to_json(&self, indent: usize) -> (s: String)
        requires
            indent_fits(*self, indent as nat),
        ensures
            s@ == json_of(*self, indent as nat),
            sizes_single_line(*self),
            s@ == indented(json_of(*self, 0), spaces(2 * indent as nat)),
        decreases *self,
    {
        let mut s = String::new();
        self.push_name_lines(&mut s, indent);
        self.push_count_lines(&mut s, indent);
        let ghost head = s@;
        if self.children.len() > 0 {
            push_spaces(&mut s, indent);
            s.append("  \"children\": [\n");
            let ghost start = s@;
            let n = self.children.len();
            let mut i: usize = 0;
            while i + 1 < n
                invariant
                    i < n == self.children.len(),
                    indent_fits(*self, indent as nat),
                    s@ == start + leading_json(self.children@.take(i as int), (indent + 2) as nat),
                    forall|j: int| 0 <= j < i ==> sizes_single_line(#[trigger] self.children@[j]),
                decreases n - i,
            {
                assert(indent_fits(self.children@[i as int], (indent + 2) as nat));
                let c = self.children[i].to_json(indent + 2);
                s.append(c.as_str());
                s.append(",\n");
                proof {
                    assert(self.children@.take(i + 1).drop_last() =~= self.children@.take(i as int));
                }
                i = i + 1;
                assert(s@ =~= start + leading_json(self.children@.take(i as int), (indent + 2) as nat));
            }
            assert(indent_fits(self.children@[i as int], (indent + 2) as nat));
            let c = self.children[i].to_json(indent + 2);
            s.append(c.as_str());
            s.append("\n");
            proof {
                assert(self.children@.drop_last() =~= self.children@.take(i as int));
                assert(s@ =~= start + children_json(self.children@, (indent + 2) as nat));
            }
            push_spaces(&mut s, indent);
            s.append("  ]\n");
        } else {
            push_spaces(&mut s, indent);
            s.append("  \"children\": []\n");
        }
        push_spaces(&mut s, indent);
        s.append("}");
        assert(s@ =~= json_of(*self, indent as nat));
        proof {
            assert(sizes_single_line(*self));
            lemma_json_reindent(*self, indent as nat);
        }
        s
    }
}

/// The text of `lines`, each line after the prefix `p` and followed by a
/// line break.
pub open spec fn block(lines: Seq<Seq<char>>, p: Seq<char>) -> Seq<char>
    decreases lines.len(),
{
    if lines.len() == 0 {
        Seq::empty()
    } else {
        block(lines.drop_last(), p) + p + lines.last() + seq!['\n']
    }
}

/// `lines`, each after the prefix `q`.
pub open spec fn shifted(lines: Seq<Seq<char>>, q: Seq<char>) -> Seq<Seq<char>> {
    Seq::new(lines.len(), |i: int| q + lines[i])
}

/// `lines` with a comma at the end of the last one.
pub open spec fn with_comma(lines: Seq<Seq<char>>) -> Seq<Seq<char>> {
    if lines.len() == 0 {
        lines
    } else {
        lines.update(lines.len() - 1, lines.last() + ","@)
    }
}

/// The first lines of a node's JSON text at indentation 0: the opening
/// brace, then its name, sizes, flags and counts.
pub open spec fn header_lines(n: TopologyNode) -> Seq<Seq<char>> {
    seq![
        "{"@,
        "  \"name\": \""@ + escape_json(n.name@) + "\","@,
        "  \"size\": "@ + dec_str(n.size as nat) + ","@,
        "  \"size_human\": \""@ + humansize_binary(n.size) + "\","@,
        "  \"is_dir\": "@ + bool_text(n.is_dir) + ","@,
        "  \"is_aggregated\": "@ + bool_text(n.is_aggregated) + ","@,
        "  \"file_count\": "@ + dec_str(n.file_count as nat) + ","@,
        "  \"dir_count\": "@ + dec_str(n.dir_count as nat) + ","@,
    ]
}

/// The lines of a node's JSON text at indentation 0, without line breaks:
/// the children's lines come four spaces further in, each child but the
/// last ending with a comma.
pub open spec fn json_lines(n: TopologyNode) -> Seq<Seq<char>>
    decreases n,
{
    header_lines(n) + (if n.children.len() == 0 {
        seq!["  \"children\": []"@]
    } else {
        seq!["  \"children\": ["@] + children_lines(n.children@) + seq!["  ]"@]
    }) + seq!["}"@]
}

/// The lines of the nodes' JSON texts, as children of a node.
pub open spec fn children_lines(s: Seq<TopologyNode>) -> Seq<Seq<char>>
    decreases s,
{
    if s.len() == 0 {
        Seq::empty()
    } else {
        leading_lines(s.drop_last()) + shifted(json_lines(s.last()), spaces(4))
    }
}

/// The lines of the nodes' JSON texts, as children of a node that are
/// followed by more children.
pub open spec fn leading_lines(s: Seq<TopologyNode>) -> Seq<Seq<char>>
    decreases s,
{
    if s.len() == 0 {
        Seq::empty()
    } else {
        leading_lines(s.drop_last()) + with_comma(shifted(json_lines(s.last()), spaces(4)))
    }
}

proof fn lemma_block_concat(a: Seq<Seq<char>>, b: Seq<Seq<char>>, p: Seq<char>)
    ensures
        block(a + b, p) == block(a, p) + block(b, p),
    decreases b.len(),
{
    if b.len() == 0 {
        assert(a + b =~= a);
        assert(block(a, p) + block(b, p) =~= block(a, p));
    } else {
        assert((a + b).drop_last() =~= a + b.drop_last());
        lemma_block_concat(a, b.drop_last(), p);
        assert(block(a + b, p) =~= block(a, p) + block(b, p));
    }
}

proof fn lemma_block_shifted(lines: Seq<Seq<char>>, q: Seq<char>, p: Seq<char>)
    ensures
        block(shifted(lines, q), p) == block(lines, p + q),
    decreases lines.len(),
{
    if lines.len() > 0 {
        assert(shifted(lines, q).drop_last() =~= shifted(lines.drop_last(), q));
        lemma_block_shifted(lines.drop_last(), q, p);
        assert(block(shifted(lines, q), p) =~= block(lines, p + q));
    }
}

proof fn lemma_block_push(lines: Seq<Seq<char>>, l: Seq<char>, p: Seq<char>)
    ensures
        block(lines.push(l), p) == block(lines, p) + p + l + seq!['\n'],
{
    assert(lines.push(l).drop_last() =~= lines);
}

proof fn lemma_block_one(l: Seq<char>, p: Seq<char>)
    ensures
        block(seq![l], p) == p + l + seq!['\n'],
{
    lemma_block_push(Seq::empty(), l, p);
    assert(Seq::<Seq<char>>::empty().push(l) =~= seq![l]);
    assert(block(Seq::<Seq<char>>::empty(), p) =~= Seq::<char>::empty());
    assert(block(seq![l], p) =~= p + l + seq!['\n']);
}

proof fn lemma_block_with_comma(lines: Seq<Seq<char>>, p: Seq<char>, text: Seq<char>)
    requires
        lines.len() > 0,
        text + seq!['\n'] == block(lines, p),
    ensures
        text + ","@ + seq!['\n'] == block(with_comma(lines), p),
{
    reveal_strlit(",");
    let w = with_comma(lines);
    assert(w.drop_last() =~= lines.drop_last());
    let head = block(lines.drop_last(), p) + p + lines.last();
    assert(block(lines, p) =~= head + seq!['\n']);
    assert(text =~= head) by {
        assert(text =~= (text + seq!['\n']).take(text.len() as int));
        assert(head =~= (head + seq!['\n']).take(head.len() as int));
    }
    assert(block(w, p) =~= text + ","@ + seq!['\n']);
}

proof fn lemma_line_ends()
    ensures
        "{\n"@ == "{"@ + seq!['\n'],
        "\",\n"@ == "\","@ + seq!['\n'],
        ",\n"@ == ","@ + seq!['\n'],
        "\n"@ == seq!['\n'],
{
    reveal_strlit("{\n");
    reveal_strlit("{");
    reveal_strlit("\",\n");
    reveal_strlit("\",");
    reveal_strlit(",\n");
    reveal_strlit(",");
    reveal_strlit("\n");
    assert("{\n"@ =~= "{"@ + seq!['\n']);
    assert("\",\n"@ =~= "\","@ + seq!['\n']);
    assert(",\n"@ =~= ","@ + seq!['\n']);
    assert("\n"@ =~= seq!['\n']);
}

proof fn lemma_children_line_ends()
    ensures
        "  \"children\": []\n"@ == "  \"children\": []"@ + seq!['\n'],
        "  \"children\": [\n"@ == "  \"children\": ["@ + seq!['\n'],
        "  ]\n"@ == "  ]"@ + seq!['\n'],
{
    reveal_strlit("  \"children\": []\n");
    reveal_strlit("  \"children\": []");
    reveal_strlit("  \"children\": [\n");
    reveal_strlit("  \"children\": [");
    reveal_strlit("  ]\n");
    reveal_strlit("  ]");
    assert("  \"children\": []\n"@ =~= "  \"children\": []"@ + seq!['\n']);
    assert("  \"children\": [\n"@ =~= "  \"children\": ["@ + seq!['\n']);
    assert("  ]\n"@ =~= "  ]"@ + seq!['\n']);
}

/// The line `a + x + b` after `p`, with its line break, where `b` and a line
/// break make `e`.
proof fn lemma_line_text(a: Seq<char>, x: Seq<char>, b: Seq<char>, e: Seq<char>, p: Seq<char>, before: Seq<char>)
    requires
        e == b + seq!['\n'],
    ensures
        before + p + (a + x + b) + seq!['\n'] == before + p + a + x + e,
{
    assert(before + p + (a + x + b) + seq!['\n'] =~= before + p + a + x + e);
}

#[verifier::spinoff_prover]
#[verifier::rlimit(100)]
proof fn lemma_header_lines(n: TopologyNode, k: nat)
    ensures
        json_name_lines(n, k) + json_count_lines(n, k) == block(header_lines(n), spaces(2 * k)),
{
    lemma_line_ends();
    let sp = spaces(2 * k);
    let h = header_lines(n);
    let h0 = seq![h[0]];
    let h1 = h0.push(h[1]);
    let h2 = h1.push(h[2]);
    let h3 = h2.push(h[3]);
    let h4 = h3.push(h[4]);
    let h5 = h4.push(h[5]);
    let h6 = h5.push(h[6]);
    let h7 = h6.push(h[7]);
    assert(h7 =~= h);
    lemma_block_one(h[0], sp);
    assert(block(h0, sp) == sp + "{\n"@);
    lemma_block_push(h0, h[1], sp);
    lemma_line_text("  \"name\": \""@, escape_json(n.name@), "\","@, "\",\n"@, sp, block(h0, sp));
    lemma_block_push(h1, h[2], sp);
    lemma_line_text("  \"size\": "@, dec_str(n.size as nat), ","@, ",\n"@, sp, block(h1, sp));
    lemma_block_push(h2, h[3], sp);
    lemma_line_text("  \"size_human\": \""@, humansize_binary(n.size), "\","@, "\",\n"@, sp, block(h2, sp));
    assert(block(h3, sp) == json_name_lines(n, k));
    lemma_block_push(h3, h[4], sp);
    lemma_line_text("  \"is_dir\": "@, bool_text(n.is_dir), ","@, ",\n"@, sp, block(h3, sp));
    lemma_block_push(h4, h[5], sp);
    lemma_line_text("  \"is_aggregated\": "@, bool_text(n.is_aggregated), ","@, ",\n"@, sp, block(h4, sp));
    lemma_block_push(h5, h[6], sp);
    lemma_line_text("  \"file_count\": "@, dec_str(n.file_count as nat), ","@, ",\n"@, sp, block(h5, sp));
    lemma_block_push(h6, h[7], sp);
    lemma_line_text("  \"dir_count\": "@, dec_str(n.dir_count as nat), ","@, ",\n"@, sp, block(h6, sp));
    assert(block(h7, sp) =~= json_name_lines(n, k) + json_count_lines(n, k));
}

#[verifier::spinoff_prover]
#[verifier::rlimit(100)]
proof fn lemma_children_lines(s: Seq<TopologyNode>, k: nat)
    requires
        forall|i: int|
            0 <= i < s.len() ==> json_of(#[trigger] s[i], k + 2) + seq!['\n'] == block(
                json_lines(s[i]),
                spaces(2 * (k + 2)),
            ),
    ensures
        leading_json(s, k + 2) == block(leading_lines(s), spaces(2 * k)),
        children_json(s, k + 2) == block(children_lines(s), spaces(2 * k)),
    decreases s.len(),
{
    lemma_line_ends();
    if s.len() > 0 {
        let c = s.last();
        let sp = spaces(2 * k);
        lemma_children_lines(s.drop_last(), k);
        assert(json_of(c, k + 2) + seq!['\n'] == block(json_lines(c), spaces(2 * (k + 2))));
        assert(sp + spaces(4) =~= spaces(2 * (k + 2)));
        lemma_block_shifted(json_lines(c), spaces(4), sp);
        let sl = shifted(json_lines(c), spaces(4));
        assert(json_lines(c).len() >= 8);
        lemma_block_with_comma(sl, sp, json_of(c, k + 2));
        lemma_block_concat(leading_lines(s.drop_last()), with_comma(sl), sp);
        lemma_block_concat(leading_lines(s.drop_last()), sl, sp);
        assert(leading_json(s, k + 2) =~= block(leading_lines(s), sp));
        assert(children_json(s, k + 2) =~= block(children_lines(s), sp));
    }
}

/// The JSON text of a node at indentation level `k` is made of the same
/// lines as its text at level 0, each with `2 * k` more spaces in front:
/// both texts, each followed by a line break, are the lines of `json_lines`,
/// each after its prefix (`2 * k` spaces, or none) and followed by a line
/// break.
pub proof fn lemma_json_indentation(n: TopologyNode, k: nat)
    ensures
        json_of(n, k) + seq!['\n'] == block(json_lines(n), spaces(2 * k)),
        json_of(n, 0) + seq!['\n'] == block(json_lines(n), Seq::empty()),
{
    lemma_json_lines_at(n, k);
    lemma_json_lines_at(n, 0);
    assert(spaces(0) =~= Seq::<char>::empty());
}

proof fn lemma_json_lines_leaf(n: TopologyNode, k: nat)
    requires
        n.children.len() == 0,
    ensures
        json_of(n, k) + seq!['\n'] == block(json_lines(n), spaces(2 * k)),
{
    lemma_children_line_ends();
    let sp = spaces(2 * k);
    let nl = seq!['\n'];
    lemma_header_lines(n, k);
    let hd = json_name_lines(n, k) + json_count_lines(n, k);
    let body = seq!["  \"children\": []"@];
    let end = seq!["}"@];
    lemma_block_one("}"@, sp);
    lemma_block_one("  \"children\": []"@, sp);
    lemma_block_concat(header_lines(n), body, sp);
    lemma_block_concat(header_lines(n) + body, end, sp);
    assert(json_lines(n) == header_lines(n) + body + end);
    assert(block(json_lines(n), sp) == hd + (sp + "  \"children\": []"@ + nl) + (sp + "}"@ + nl));
    assert(json_of(n, k) == hd + (sp + "  \"children\": []\n"@) + sp + "}"@);
    assert(json_of(n, k) + nl =~= hd + (sp + "  \"children\": []"@ + nl) + (sp + "}"@ + nl));
}

#[verifier::spinoff_prover]
#[verifier::rlimit(60)]
proof fn lemma_json_lines_node(n: TopologyNode, k: nat)
    requires
        n.children.len() > 0,
        children_json(n.children@, k + 2) == block(children_lines(n.children@), spaces(2 * k)),
    ensures
        json_of(n, k) + seq!['\n'] == block(json_lines(n), spaces(2 * k)),
{
    lemma_children_line_ends();
    let sp = spaces(2 * k);
    let nl = seq!['\n'];
    let ch = n.children@;
    lemma_header_lines(n, k);
    let hd = json_name_lines(n, k) + json_count_lines(n, k);
    let cj = children_json(ch, k + 2);
    let open = seq!["  \"children\": ["@];
    let close = seq!["  ]"@];
    let end = seq!["}"@];
    let hl = header_lines(n);
    let cl = children_lines(ch);
    lemma_block_one("}"@, sp);
    lemma_block_one("  \"children\": ["@, sp);
    lemma_block_one("  ]"@, sp);
    lemma_block_concat(hl, open, sp);
    lemma_block_concat(hl + open, cl, sp);
    lemma_block_concat(hl + open + cl, close, sp);
    lemma_block_concat(hl + open + cl + close, end, sp);
    assert(json_lines(n) == hl + (open + cl + close) + end);
    assert(hl + (open + cl + close) + end =~= hl + open + cl + close + end);
    assert(block(json_lines(n), sp) == hd + (sp + "  \"children\": ["@ + nl) + cj + (sp + "  ]"@ + nl) + (sp
        + "}"@ + nl));
    assert(json_of(n, k) == hd + (sp + "  \"children\": [\n"@ + cj + sp + "  ]\n"@) + sp + "}"@);
    assert(json_of(n, k) + nl =~= hd + (sp + "  \"children\": ["@ + nl) + cj + (sp + "  ]"@ + nl) + (sp
        + "}"@ + nl));
}

proof fn lemma_json_lines_at(n: TopologyNode, k: nat)
    ensures
        json_of(n, k) + seq!['\n'] == block(json_lines(n), spaces(2 * k)),
    decreases n,
{
    if n.children.len() == 0 {
        lemma_json_lines_leaf(n, k);
    } else {
        let ch = n.children@;
        assert forall|i: int| 0 <= i < ch.len() implies json_of(#[trigger] ch[i], k + 2) + seq!['\n'] == block(
            json_lines(ch[i]),
            spaces(2 * (k + 2)),
        ) by {
            lemma_json_lines_at(ch[i], k + 2);
        }
        lemma_children_lines(ch, k);
        lemma_json_lines_node(n, k);
    }
}

/// Every line of `lines` is free of line breaks.
pub open spec fn lines_single(lines: Seq<Seq<char>>) -> bool {
    forall|i: int| 0 <= i < lines.len() ==> no_newline(#[trigger] lines[i])
}

proof fn lemma_no_newline_concat(a: Seq<char>, b: Seq<char>)
    requires
        no_newline(a),
        no_newline(b),
    ensures
        no_newline(a + b),
{
    assert forall|i: int| 0 <= i < (a + b).len() implies (a + b)[i] != '\n' by {
        if i < a.len() {
            assert((a + b)[i] == a[i]);
        } else {
            assert((a + b)[i] == b[i - a.len()]);
        }
    }
}

proof fn lemma_after_breaks_concat(a: Seq<char>, b: Seq<char>, p: Seq<char>)
    ensures
        after_breaks(a + b, p) == after_breaks(a, p) + after_breaks(b, p),
    decreases b.len(),
{
    if b.len() == 0 {
        assert(a + b =~= a);
        assert(after_breaks(a, p) + after_breaks(b, p) =~= after_breaks(a, p));
    } else {
        assert((a + b).drop_last() =~= a + b.drop_last());
        lemma_after_breaks_concat(a, b.drop_last(), p);
        assert(after_breaks(a + b, p) =~= after_breaks(a, p) + after_breaks(b, p));
    }
}

proof fn lemma_after_breaks_line(l: Seq<char>, p: Seq<char>)
    requires
        no_newline(l),
    ensures
        after_breaks(l, p) == l,
    decreases l.len(),
{
    if l.len() > 0 {
        assert(l.last() == l[l.len() - 1]);
        lemma_after_breaks_line(l.drop_last(), p);
        assert(after_breaks(l, p) =~= l);
    }
}

proof fn lemma_block_indented(lines: Seq<Seq<char>>, p: Seq<char>)
    requires
        lines_single(lines),
    ensures
        p + after_breaks(block(lines, Seq::empty()), p) == block(lines, p) + p,
    decreases lines.len(),
{
    if lines.len() == 0 {
        assert(p + after_breaks(block(lines, Seq::empty()), p) =~= block(lines, p) + p);
    } else {
        let d = lines.drop_last();
        let l = lines.last();
        assert(lines_single(d)) by {
            assert forall|i: int| 0 <= i < d.len() implies no_newline(#[trigger] d[i]) by {
                assert(d[i] == lines[i]);
            }
        }
        assert(no_newline(lines[lines.len() - 1]));
        lemma_block_indented(d, p);
        let e = Seq::<char>::empty();
        assert(block(lines, e) =~= block(d, e) + (l + seq!['\n']));
        lemma_after_breaks_concat(block(d, e), l + seq!['\n'], p);
        lemma_after_breaks_line(l, p);
        assert((l + seq!['\n']).drop_last() =~= l);
        assert(after_breaks(l + seq!['\n'], p) == after_breaks(l, p) + seq!['\n'] + p);
        assert(p + after_breaks(block(lines, e), p) =~= block(lines, p) + p);
    }
}

proof fn lemma_digit_no_newline(d: int)
    requires
        0 <= d < 10,
    ensures
        digit_char(d) != '\n',
{
    let s = seq!['0', '1', '2', '3', '4', '5', '6', '7', '8', '9'];
    assert(s[d] == '0' || s[d] == '1' || s[d] == '2' || s[d] == '3' || s[d] == '4' || s[d] == '5'
        || s[d] == '6' || s[d] == '7' || s[d] == '8' || s[d] == '9');
}

proof fn lemma_dec_str_single(n: nat)
    ensures
        no_newline(dec_str(n)),
    decreases n,
{
    if n < 10 {
        lemma_digit_no_newline(n as int);
    } else {
        lemma_dec_str_single(n / 10);
        lemma_digit_no_newline((n % 10) as int);
        lemma_no_newline_concat(dec_str(n / 10), seq![digit_char((n % 10) as int)]);
        assert(dec_str(n) =~= dec_str(n / 10) + seq![digit_char((n % 10) as int)]);
    }
}

proof fn lemma_escape_single(s: Seq<char>)
    ensures
        no_newline(escape_json(s)),
    decreases s.len(),
{
    reveal(escape_json);
    if s.len() > 0 {
        lemma_escape_single(s.drop_last());
        let c = s.last();
        let hs = seq!['0', '1', '2', '3', '4', '5', '6', '7', '8', '9', 'a', 'b', 'c', 'd', 'e', 'f'];
        assert forall|d: int| 0 <= d < 16 implies hex_digit(d) != '\n' by {
            assert(hs[d] == hs[d]);
        }
        assert(no_newline(escape_char(c))) by {
            if (c as u32) < 0x20 && c != '"' && c != '\\' && c != '\n' && c != '\r' && c != '\t' {
                assert(hex_digit(((c as u32) / 16) as int) != '\n');
                assert(hex_digit(((c as u32) % 16) as int) != '\n');
            }
        }
        lemma_no_newline_concat(escape_json(s.drop_last()), escape_char(c));
    }
}

proof fn lemma_literals_single()
    ensures
        no_newline("{"@),
        no_newline("}"@),
        no_newline(","@),
        no_newline("\","@),
        no_newline("true"@),
        no_newline("false"@),
        no_newline("  \"name\": \""@),
        no_newline("  \"size\": "@),
        no_newline("  \"size_human\": \""@),
        no_newline("  \"is_dir\": "@),
        no_newline("  \"is_aggregated\": "@),
        no_newline("  \"file_count\": "@),
        no_newline("  \"dir_count\": "@),
        no_newline("  \"children\": []"@),
        no_newline("  \"children\": ["@),
        no_newline("  ]"@),
{
    reveal_strlit("{");
    reveal_strlit("}");
    reveal_strlit(",");
    reveal_strlit("\",");
    reveal_strlit("true");
    reveal_strlit("false");
    reveal_strlit("  \"name\": \"");
    reveal_strlit("  \"size\": ");
    reveal_strlit("  \"size_human\": \"");
    reveal_strlit("  \"is_dir\": ");
    reveal_strlit("  \"is_aggregated\": ");
    reveal_strlit("  \"file_count\": ");
    reveal_strlit("  \"dir_count\": ");
    reveal_strlit("  \"children\": []");
    reveal_strlit("  \"children\": [");
    reveal_strlit("  ]");
}

proof fn lemma_three_single(a: Seq<char>, x: Seq<char>, b: Seq<char>)
    requires
        no_newline(a),
        no_newline(x),
        no_newline(b),
    ensures
        no_newline(a + x + b),
{
    lemma_no_newline_concat(a, x);
    lemma_no_newline_concat(a + x, b);
}

#[verifier::spinoff_prover]
proof fn lemma_header_single(n: TopologyNode)
    requires
        no_newline(humansize_binary(n.size)),
    ensures
        lines_single(header_lines(n)),
{
    lemma_literals_single();
    lemma_escape_single(n.name@);
    lemma_dec_str_single(n.size as nat);
    lemma_dec_str_single(n.file_count as nat);
    lemma_dec_str_single(n.dir_count as nat);
    assert(no_newline(bool_text(n.is_dir)));
    assert(no_newline(bool_text(n.is_aggregated)));
    lemma_three_single("  \"name\": \""@, escape_json(n.name@), "\","@);
    lemma_three_single("  \"size\": "@, dec_str(n.size as nat), ","@);
    lemma_three_single("  \"size_human\": \""@, humansize_binary(n.size), "\","@);
    lemma_three_single("  \"is_dir\": "@, bool_text(n.is_dir), ","@);
    lemma_three_single("  \"is_aggregated\": "@, bool_text(n.is_aggregated), ","@);
    lemma_three_single("  \"file_count\": "@, dec_str(n.file_count as nat), ","@);
    lemma_three_single("  \"dir_count\": "@, dec_str(n.dir_count as nat), ","@);
    let h = header_lines(n);
    assert forall|i: int| 0 <= i < h.len() implies no_newline(#[trigger] h[i]) by {
        if i == 0 {
        } else if i == 1 {
        } else if i == 2 {
        } else if i == 3 {
        } else if i == 4 {
        } else if i == 5 {
        } else if i == 6 {
        } else {
        }
    }
}

proof fn lemma_lines_single_concat(a: Seq<Seq<char>>, b: Seq<Seq<char>>)
    requires
        lines_single(a),
        lines_single(b),
    ensures
        lines_single(a + b),
{
    assert forall|i: int| 0 <= i < (a + b).len() implies no_newline(#[trigger] (a + b)[i]) by {
        if i < a.len() {
            assert((a + b)[i] == a[i]);
        } else {
            assert((a + b)[i] == b[i - a.len()]);
        }
    }
}

proof fn lemma_child_block_single(lines: Seq<Seq<char>>)
    requires
        lines_single(lines),
    ensures
        lines_single(shifted(lines, spaces(4))),
        lines_single(with_comma(shifted(lines, spaces(4)))),
{
    lemma_literals_single();
    let sl = shifted(lines, spaces(4));
    assert(no_newline(spaces(4)));
    assert forall|i: int| 0 <= i < sl.len() implies no_newline(#[trigger] sl[i]) by {
        assert(no_newline(lines[i]));
        lemma_no_newline_concat(spaces(4), lines[i]);
    }
    let w = with_comma(sl);
    assert forall|i: int| 0 <= i < w.len() implies no_newline(#[trigger] w[i]) by {
        if i == sl.len() - 1 {
            assert(no_newline(sl[i]));
            lemma_no_newline_concat(sl[i], ","@);
        } else {
            assert(w[i] == sl[i]);
        }
    }
}

proof fn lemma_children_single(s: Seq<TopologyNode>)
    requires
        forall|i: int| 0 <= i < s.len() ==> lines_single(json_lines(#[trigger] s[i])),
    ensures
        lines_single(leading_lines(s)),
        lines_single(children_lines(s)),
    decreases s.len(),
{
    if s.len() > 0 {
        lemma_children_single(s.drop_last());
        assert(lines_single(json_lines(s[s.len() - 1])));
        lemma_child_block_single(json_lines(s.last()));
        lemma_lines_single_concat(leading_lines(s.drop_last()), with_comma(shifted(json_lines(s.last()), spaces(4))));
        lemma_lines_single_concat(leading_lines(s.drop_last()), shifted(json_lines(s.last()), spaces(4)));
    }
}

proof fn lemma_json_lines_single(n: TopologyNode)
    requires
        sizes_single_line(n),
    ensures
        lines_single(json_lines(n)),
    decreases n,
{
    lemma_literals_single();
    lemma_header_single(n);
    let ch = n.children@;
    assert forall|i: int| 0 <= i < ch.len() implies lines_single(json_lines(#[trigger] ch[i])) by {
        lemma_json_lines_single(ch[i]);
    }
    lemma_children_single(ch);
    let end = seq!["}"@];
    assert(lines_single(end));
    if ch.len() == 0 {
        let body = seq!["  \"children\": []"@];
        assert(lines_single(body));
        lemma_lines_single_concat(header_lines(n), body);
        lemma_lines_single_concat(header_lines(n) + body, end);
    } else {
        let open = seq!["  \"children\": ["@];
        let close = seq!["  ]"@];
        assert(lines_single(open));
        assert(lines_single(close));
        lemma_lines_single_concat(open, children_lines(ch));
        lemma_lines_single_concat(open + children_lines(ch), close);
        lemma_lines_single_concat(header_lines(n), open + children_lines(ch) + close);
        lemma_lines_single_concat(header_lines(n) + (open + children_lines(ch) + close), end);
    }
}

/// When no human-readable size in the tree holds a line break (which
/// `to_json` ensures of the trees it renders), the JSON text at indentation
/// level `k` is the text at level 0 with `2 * k` spaces at the start of
/// every line.
pub proof fn lemma_json_reindent(n: TopologyNode, k: nat)
    requires
        sizes_single_line(n),
    ensures
        json_of(n, k) == indented(json_of(n, 0), spaces(2 * k)),
{
    let p = spaces(2 * k);
    let e = Seq::<char>::empty();
    lemma_json_indentation(n, k);
    lemma_json_lines_single(n);
    lemma_block_indented(json_lines(n), p);
    let j0 = json_of(n, 0);
    let jk = json_of(n, k);
    assert((j0 + seq!['\n']).drop_last() =~= j0);
    assert(after_breaks(j0 + seq!['\n'], p) == after_breaks(j0, p) + seq!['\n'] + p);
    assert(p + after_breaks(j0, p) + seq!['\n'] + p =~= jk + seq!['\n'] + p);
    let x = p + after_breaks(j0, p);
    assert(x =~= (x + seq!['\n'] + p).take(x.len() as int));
    assert(jk =~= (jk + seq!['\n'] + p).take(jk.len() as int));
    assert((x + seq!['\n'] + p).len() == (jk + seq!['\n'] + p).len());
}

/// The JSON text of a node holds, one per line after the opening brace, its
/// name (escaped), size, human-readable size, and its own `is_dir`,
/// `is_aggregated`, `file_count` and `dir_count` fields, in that order:
/// `"is_aggregated"` reads `true` exactly for buckets, whatever `is_dir` is.
pub proof fn lemma_json_fields(n: TopologyNode, k: nat)
    ensures
        json_of(n, k) + seq!['\n'] == block(json_lines(n), spaces(2 * k)),
        json_lines(n).len() >= 10,
        json_lines(n)[0] == "{"@,
        json_lines(n)[1] == "  \"name\": \""@ + escape_json(n.name@) + "\","@,
        json_lines(n)[2] == "  \"size\": "@ + dec_str(n.size as nat) + ","@,
        json_lines(n)[3] == "  \"size_human\": \""@ + humansize_binary(n.size) + "\","@,
        json_lines(n)[4] == "  \"is_"@ + "dir\": "@ + (if n.is_dir {
            seq!['t', 'r', 'u', 'e']
        } else {
            seq!['f', 'a', 'l', 's', 'e']
        }) + seq![','],
        json_lines(n)[5] == "  \"is_"@ + "aggregated\": "@ + (if n.is_aggregated {
            seq!['t', 'r', 'u', 'e']
        } else {
            seq!['f', 'a', 'l', 's', 'e']
        }) + seq![','],
        json_lines(n)[6] == "  \"file_count\": "@ + dec_str(n.file_count as nat) + ","@,
        json_lines(n)[7] == "  \"dir_count\": "@ + dec_str(n.dir_count as nat) + ","@,
        json_lines(n).last() == "}"@,
{
    lemma_json_indentation(n, k);
    reveal_strlit("  \"is_");
    reveal_strlit("dir\": ");
    reveal_strlit("aggregated\": ");
    reveal_strlit("  \"is_dir\": ");
    reveal_strlit("  \"is_aggregated\": ");
    reveal_strlit("true");
    reveal_strlit("false");
    reveal_strlit(",");
    assert("  \"is_dir\": "@ =~= "  \"is_"@ + "dir\": "@);
    assert("  \"is_aggregated\": "@ =~= "  \"is_"@ + "aggregated\": "@);
    assert("true"@ =~= seq!['t', 'r', 'u', 'e']);
    assert("false"@ =~= seq!['f', 'a', 'l', 's', 'e']);
    assert(","@ =~= seq![',']);
}

} // verus!
