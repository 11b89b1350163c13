//! The syntax tree of a brainfuck program and its parser.
use vstd::prelude::*;
use vstd::std_specs::iter::IteratorSpec;

verus! {

/// The syntax tree of a brainfuck program.
#[derive(Debug)]
pub struct SyntaxTree {
    pub commands: Vec<Command>,
}

/// The eight brainfuck commands, with `[` and `]` parsed into a loop.
#[derive(Debug)]
pub enum Command {
    /// `>`: move the pointer one cell to the right.
    PtrIncr,
    /// `<`: move the pointer one cell to the left.
    PtrDecr,
    /// `+`: increment the cell under the pointer.
    ValIncr,
    /// `-`: decrement the cell under the pointer.
    ValDecr,
    /// `.`: output the cell under the pointer.
    Output,
    /// `,`: read one byte into the cell under the pointer.
    Input,
    /// `[` ... `]`: repeat the inner commands while the cell under the pointer is not zero.
    Loop { inner_commands: Vec<Command> },
}

// ---------------------------------------------------------------------------
// The text of a program
// ---------------------------------------------------------------------------

/// The characters that are brainfuck commands; every other character is a comment.
pub open spec fn is_command_char(c: char) -> bool {
    c == '>' || c == '<' || c == '+' || c == '-' || c == '.' || c == ',' || c == '[' || c == ']'
}

/// The command characters of `s`, in order, with the comments left out.
pub open spec fn program_text(s: Seq<char>) -> Seq<char>
    decreases s.len(),
{
    if s.len() == 0 {
        seq![]
    } else {
        program_text(s.drop_last()) + if is_command_char(s.last()) {
            seq![s.last()]
        } else {
            seq![]
        }
    }
}

/// How a character changes the nesting depth of brackets.
pub open spec fn bracket_delta(c: char) -> int {
    if c == '[' {
        1
    } else if c == ']' {
        -1
    } else {
        0
    }
}

/// The nesting depth of brackets after the first `i` characters of `s`.
pub open spec fn depth(s: Seq<char>, i: int) -> int
    decreases i,
{
    if i <= 0 {
        0
    } else {
        depth(s, i - 1) + bracket_delta(s[i - 1])
    }
}

/// No prefix of `s` closes more brackets than it opens.
pub open spec fn never_negative(s: Seq<char>) -> bool {
    forall|j: int| 0 <= j <= s.len() ==> #[trigger] depth(s, j) >= 0
}

/// Every bracket of `s` has its partner.
pub open spec fn balanced(s: Seq<char>) -> bool {
    never_negative(s) && depth(s, s.len() as int) == 0
}

/// The `]` at index `i` is the first one that closes no `[`.
pub open spec fn unmatched_close_at(s: Seq<char>, i: int) -> bool {
    &&& 0 <= i < s.len()
    &&& depth(s, i + 1) < 0
    &&& forall|j: int| 0 <= j <= i ==> #[trigger] depth(s, j) >= 0
}

/// Every `]` of `s` has its `[`, and the `[` at index `i` is the innermost one
/// that is still open at the end of `s`.
pub open spec fn unmatched_open_at(s: Seq<char>, i: int) -> bool {
    &&& never_negative(s)
    &&& 0 <= i < s.len()
    &&& depth(s, i) == depth(s, s.len() as int) - 1
    &&& forall|j: int| i < j <= s.len() ==> #[trigger] depth(s, j) >= depth(s, s.len() as int)
}

/// The text of a command sequence: the program that parses to it, without comments.
pub open spec fn render(s: Seq<Command>) -> Seq<char>
    decreases s,
{
    if s.len() == 0 {
        seq![]
    } else {
        proof {
            assert(decreases_to!(s => s[s.len() - 1]));
        }
        render(s.subrange(0, s.len() - 1)) + match s.last() {
            Command::PtrIncr => seq!['>'],
            Command::PtrDecr => seq!['<'],
            Command::ValIncr => seq!['+'],
            Command::ValDecr => seq!['-'],
            Command::Output => seq!['.'],
            Command::Input => seq![','],
            Command::Loop { inner_commands } => {
                proof {
                    assert(decreases_to!(s => inner_commands@)) by {
                        assert(decreases_to!(s => s[s.len() - 1]));
                        assert(decreases_to!(s[s.len() - 1] => inner_commands));
                        assert(decreases_to!(inner_commands => inner_commands@));
                    }
                }
                seq!['['] + render(inner_commands@) + seq![']']
            },
        }
    }
}

// ---------------------------------------------------------------------------
// Error messages
// ---------------------------------------------------------------------------

/// The character of a decimal digit.
pub open spec fn digit_char(d: int) -> char {
    (d + 48) as char
}

/// The decimal notation of `n`.
pub open spec fn decimal(n: nat) -> Seq<char>
    decreases n,
{
    if n < 10 {
        seq![digit_char(n as int)]
    } else {
        decimal(n / 10) + seq![digit_char((n % 10) as int)]
    }
}

/// The message for a `]` at character index `i` that closes no `[`.
pub open spec fn unmatched_close_message(i: nat) -> Seq<char> {
    decimal(i) + "文字目の']'に対応する'['がありません。"@
}

/// The message for a `[` at character index `i` that no `]` closes.
pub open spec fn unmatched_open_message(i: nat) -> Seq<char> {
    decimal(i) + "文字目の'['に対応する']'がありません"@
}

fn digit_str(d: usize) -> (s: &'static str)
    requires
        d < 10,
    ensures
        s@ == seq![digit_char(d as int)],
{
    if d == 0 {
        proof {
            reveal_strlit("0");
        }
        "0"
    } else if d == 1 {
        proof {
            reveal_strlit("1");
        }
        "1"
    } else if d == 2 {
        proof {
            reveal_strlit("2");
        }
        "2"
    } else if d == 3 {
        proof {
            reveal_strlit("3");
        }
        "3"
    } else if d == 4 {
        proof {
            reveal_strlit("4");
        }
        "4"
    } else if d == 5 {
        proof {
            reveal_strlit("5");
        }
        "5"
    } else if d == 6 {
        proof {
            reveal_strlit("6");
        }
        "6"
    } else if d == 7 {
        proof {
            reveal_strlit("7");
        }
        "7"
    } else if d == 8 {
        proof {
            reveal_strlit("8");
        }
        "8"
    } else {
        proof {
            reveal_strlit("9");
        }
        "9"
    }
}

/// Writes `n` in decimal.
fn decimal_string(n: usize) -> (s: String)
    ensures
        s@ == decimal(n as nat),
    decreases n,
{
    if n < 10 {
        String::from_str(digit_str(n))
    } else {
        let mut s = decimal_string(n / 10);
        s.append(digit_str(n % 10));
        s
    }
}

fn unmatched_close_error(i: usize) -> (msg: String)
    ensures
        msg@ == unmatched_close_message(i as nat),
{
    let mut msg = decimal_string(i);
    msg.append("文字目の']'に対応する'['がありません。");
    msg
}

fn unmatched_open_error(i: usize) -> (msg: String)
    ensures
        msg@ == unmatched_open_message(i as nat),
{
    let mut msg = decimal_string(i);
    msg.append("文字目の'['に対応する']'がありません");
    msg
}

// ---------------------------------------------------------------------------
// Lemmas on the text model
// ---------------------------------------------------------------------------

proof fn lemma_program_text_concat(a: Seq<char>, b: Seq<char>)
    ensures
        program_text(a + b) == program_text(a) + program_text(b),
    decreases b.len(),
{
    if b.len() == 0 {
        assert(a + b =~= a);
        assert(program_text(a) + program_text(b) =~= program_text(a));
    } else {
        lemma_program_text_concat(a, b.drop_last());
        assert((a + b).drop_last() =~= a + b.drop_last());
        assert((a + b).last() == b.last());
        assert(program_text(a + b) =~= program_text(a) + program_text(b));
    }
}

proof fn lemma_program_text_single(c: char)
    ensures
        program_text(seq![c]) == if is_command_char(c) {
            seq![c]
        } else {
            seq![]
        },
{
    assert(seq![c].drop_last() =~= Seq::<char>::empty());
    assert(program_text(Seq::<char>::empty()) =~= Seq::<char>::empty());
    assert(program_text(seq![c]) =~= if is_command_char(c) {
        seq![c]
    } else {
        seq![]
    });
}

/// The depth after the first `i` characters depends on those characters only.
proof fn lemma_depth_agree(s: Seq<char>, t: Seq<char>, i: int)
    requires
        0 <= i <= s.len(),
        i <= t.len(),
        forall|k: int| 0 <= k < i ==> s[k] == t[k],
    ensures
        depth(s, i) == depth(t, i),
    decreases i,
{
    if i > 0 {
        lemma_depth_agree(s, t, i - 1);
    }
}

/// The depth in `a + b` after `a` and then `j` characters of `b`.
proof fn lemma_depth_concat(a: Seq<char>, b: Seq<char>, j: int)
    requires
        0 <= j <= b.len(),
    ensures
        depth(a + b, a.len() + j) == depth(a, a.len() as int) + depth(b, j),
    decreases j,
{
    if j == 0 {
        lemma_depth_agree(a + b, a, a.len() as int);
    } else {
        lemma_depth_concat(a, b, j - 1);
        assert((a + b)[a.len() + j - 1] == b[j - 1]);
    }
}

/// The depth in a text of one character.
proof fn lemma_depth_single(c: char)
    ensures
        depth(seq![c], 0) == 0,
        depth(seq![c], 1) == bracket_delta(c),
{
    assert(depth(seq![c], 0) == 0);
    assert(seq![c][0] == c);
}

/// The text of a command sequence has every bracket matched.
pub proof fn lemma_render_balanced(x: Seq<Command>)
    ensures
        balanced(render(x)),
    decreases x,
{
    if x.len() > 0 {
        let x1 = x.subrange(0, x.len() - 1);
        assert(decreases_to!(x => x[x.len() - 1]));
        lemma_render_balanced(x1);
        let r1 = render(x1);
        let piece = render(x).subrange(r1.len() as int, render(x).len() as int);
        assert(render(x) =~= r1 + piece);
        match x.last() {
            Command::Loop { inner_commands } => {
                assert(decreases_to!(x => inner_commands@)) by {
                    assert(decreases_to!(x => x[x.len() - 1]));
                    assert(decreases_to!(x[x.len() - 1] => inner_commands));
                    assert(decreases_to!(inner_commands => inner_commands@));
                }
                lemma_render_balanced(inner_commands@);
                let ri = render(inner_commands@);
                let open = seq!['['] + ri;
                assert(piece =~= open + seq![']']);
                lemma_depth_single('[');
                lemma_depth_single(']');
                assert forall|k: int| 0 <= k <= piece.len() implies #[trigger] depth(piece, k)
                    >= 0 && (k == piece.len() ==> depth(piece, k) == 0) by {
                    if k == 0 {
                    } else if k <= open.len() {
                        lemma_depth_agree(piece, open, k);
                        lemma_depth_concat(seq!['['], ri, k - 1);
                    } else {
                        lemma_depth_concat(open, seq![']'], 1);
                        lemma_depth_concat(seq!['['], ri, ri.len() as int);
                    }
                }
            },
            _ => {
                assert(piece.len() == 1);
                assert(piece =~= seq![piece[0]]);
                lemma_depth_single(piece[0]);
            },
        }
        assert forall|j: int| 0 <= j <= render(x).len() implies #[trigger] depth(render(x), j)
            >= 0 by {
            if j <= r1.len() {
                lemma_depth_agree(render(x), r1, j);
            } else {
                lemma_depth_concat(r1, piece, j - r1.len());
            }
        }
        lemma_depth_concat(r1, piece, piece.len() as int);
    }
}

/// Of two texts that are the same and end in a bracketed balanced text, the first bracketed
/// text is at least as long as the second.
proof fn lemma_last_bracket_not_shorter(p1: Seq<char>, r1: Seq<char>, p2: Seq<char>, r2: Seq<char>)
    requires
        balanced(r1),
        balanced(r2),
        p1 + seq!['['] + r1 + seq![']'] == p2 + seq!['['] + r2 + seq![']'],
    ensures
        r1.len() >= r2.len(),
{
    if r1.len() < r2.len() {
        let t = p1 + seq!['['] + r1 + seq![']'];
        let l1 = r1.len() as int;
        let l2 = r2.len() as int;
        let q = r2.subrange(l2 - l1 - 1, l2);
        let pre = r2.subrange(0, l2 - l1 - 1);
        let open = seq!['['] + r1;
        assert(t == p2 + seq!['['] + r2 + seq![']']);
        assert forall|k: int| 0 <= k < q.len() implies q[k] == open[k] by {
            assert(q[k] == t[p2.len() + 1 + l2 - l1 - 1 + k]);
            assert(open[k] == t[p1.len() + k]);
        }
        assert(q =~= open);
        lemma_depth_concat(seq!['['], r1, l1);
        lemma_depth_single('[');
        assert(depth(open, l1 + 1) == 1);
        assert(depth(q, l1 + 1) == 1);
        assert(r2 =~= pre + q);
        lemma_depth_concat(pre, q, q.len() as int);
        assert(depth(r2, l2) == depth(pre, pre.len() as int) + 1);
        lemma_depth_agree(r2, pre, pre.len() as int);
        assert(depth(r2, pre.len() as int) >= 0);
        assert(depth(r2, l2) == 0);
    }
}

/// A text that ends in a bracketed balanced text splits there in one way only.
pub proof fn lemma_last_bracket_unique(p1: Seq<char>, r1: Seq<char>, p2: Seq<char>, r2: Seq<char>)
    requires
        balanced(r1),
        balanced(r2),
        p1 + seq!['['] + r1 + seq![']'] == p2 + seq!['['] + r2 + seq![']'],
    ensures
        p1 == p2,
        r1 == r2,
{
    lemma_last_bracket_not_shorter(p1, r1, p2, r2);
    lemma_last_bracket_not_shorter(p2, r2, p1, r1);
    let t = p1 + seq!['['] + r1 + seq![']'];
    assert(t == p2 + seq!['['] + r2 + seq![']']);
    assert(t.len() == p1.len() + r1.len() + 2);
    assert(t.len() == p2.len() + r2.len() + 2);
    assert(p1.len() == p2.len());
    assert forall|k: int| 0 <= k < r1.len() implies r1[k] == r2[k] by {
        assert(r1[k] == t[p1.len() + 1 + k]);
        assert(r2[k] == t[p2.len() + 1 + k]);
    }
    assert(r1 =~= r2);
    assert forall|k: int| 0 <= k < p1.len() implies p1[k] == p2[k] by {
        assert(p1[k] == t[k]);
        assert(p2[k] == t[k]);
    }
    assert(p1 =~= p2);
}

// ---------------------------------------------------------------------------
// The parser
// ---------------------------------------------------------------------------

/// The depth never falls below `d` from index `from` to index `to`.
spec fn stays_above(s: Seq<char>, from: int, to: int, d: int) -> bool {
    forall|j: int| from <= j <= to ==> #[trigger] depth(s, j) >= d
}

/// `cmds` is what `s[pos..end]` parses to, and the parse stopped at the end of `s`
/// or at the `]` that closes the bracket opened before `pos`.
spec fn parsed_segment(s: Seq<char>, pos: int, end: int, cmds: Seq<Command>) -> bool {
    &&& pos <= end <= s.len()
    &&& stays_above(s, pos, end, depth(s, pos))
    &&& depth(s, end) == depth(s, pos)
    &&& (end < s.len() ==> s[end] == ']')
    &&& render(cmds) == program_text(s.subrange(pos, end))
}

/// From `pos` on, some `[` of `s` is never closed, and `msg` reports the innermost one.
spec fn open_error_from(s: Seq<char>, pos: int, msg: Seq<char>) -> bool {
    &&& stays_above(s, pos, s.len() as int, depth(s, pos))
    &&& depth(s, s.len() as int) > depth(s, pos)
    &&& exists|i: int|
        #![trigger depth(s, i)]
        {
            &&& pos <= i < s.len()
            &&& depth(s, i) == depth(s, s.len() as int) - 1
            &&& (forall|j: int| i < j <= s.len() ==> #[trigger] depth(s, j) >= depth(s, s.len() as int))
            &&& msg == unmatched_open_message(i as nat)
        }
}

/// Reads the characters of a string.
fn collect_chars(code: &str) -> (chars: Vec<char>)
    ensures
        chars@ == code@,
{
    let mut out: Vec<char> = Vec::new();
    let mut it = code.chars();
    assert(it.remaining() == code@);
    loop
        invariant
            out@ + it.remaining() == code@,
            it.decrease() is Some,
        decreases it.decrease()->0,
    {
        match it.next() {
            Some(c) => {
                out.push(c);
            },
            None => {
                assert(out@ =~= code@);
                return out;
            },
        }
    }
}

impl SyntaxTree {
    /// Parses `code` into a syntax tree.
    ///
    /// Every character other than the eight commands is a comment. The parse fails on the
    /// first `]` that closes no `[`, and otherwise on the innermost `[` that is never closed;
    /// the message gives the character index of that bracket.
    pub fn new(code: &str) -> (r: Result<Self, String>)
        ensures
            r is Ok <==> balanced(code@),
            r matches Ok(t) ==> render(t.commands@) == program_text(code@),
            r matches Err(msg) ==> {
                ||| exists|i: int|
                    unmatched_close_at(code@, i) && msg@ == unmatched_close_message(i as nat)
                ||| exists|i: int|
                    unmatched_open_at(code@, i) && msg@ == unmatched_open_message(i as nat)
            },
    {
        let chars = collect_chars(code);
        let ghost s = chars@;
        match Self::parse_code(&chars, 0) {
            Ok((commands, end)) => {
                if end == chars.len() {
                    assert(s.subrange(0, s.len() as int) =~= s);
                    Ok(SyntaxTree { commands })
                } else {
                    assert(depth(s, end + 1) == depth(s, end as int) - 1);
                    assert(unmatched_close_at(s, end as int));
                    Err(unmatched_close_error(end))
                }
            },
            Err(msg) => {
                let ghost i = choose|i: int|
                    #![trigger depth(s, i)]
                    {
                        &&& 0 <= i < s.len()
                        &&& depth(s, i) == depth(s, s.len() as int) - 1
                        &&& (forall|j: int|
                            i < j <= s.len() ==> #[trigger] depth(s, j) >= depth(s, s.len() as int))
                        &&& msg@ == unmatched_open_message(i as nat)
                    };
                assert(unmatched_open_at(s, i));
                Err(msg)
            },
        }
    }

    /// Parses the commands from `pos` on, up to the end of the text or to a `]` at this level.
    fn parse_code(chars: &Vec<char>, pos: usize) -> (r: Result<(Vec<Command>, usize), String>)
        requires
            pos <= chars.len(),
        ensures
            r matches Ok((cmds, end)) ==> parsed_segment(chars@, pos as int, end as int, cmds@),
            r matches Err(msg) ==> open_error_from(chars@, pos as int, msg@),
        decreases chars.len() - pos,
    {
        let ghost s = chars@;
        let ghost d0 = depth(s, pos as int);
        let mut commands: Vec<Command> = Vec::new();
        let mut i = pos;
        assert(s.subrange(pos as int, pos as int) =~= Seq::<char>::empty());
        while i < chars.len()
            invariant
                pos <= i <= chars.len(),
                s == chars@,
                d0 == depth(s, pos as int),
                stays_above(s, pos as int, i as int, d0),
                depth(s, i as int) == d0,
                render(commands@) == program_text(s.subrange(pos as int, i as int)),
            decreases chars.len() - i,
        {
            let c = chars[i];
            assert(depth(s, i + 1) == depth(s, i as int) + bracket_delta(c));
            if c == ']' {
                return Ok((commands, i));
            }
            if c == '[' {
                match Self::parse_code(chars, i + 1) {
                    Err(msg) => {
                        proof {
                            assert(stays_above(s, pos as int, s.len() as int, d0));
                        }
                        return Err(msg);
                    },
                    Ok((inner, end)) => {
                        if end == chars.len() {
                            proof {
                                assert(stays_above(s, pos as int, s.len() as int, d0));
                                assert(depth(s, i as int) == depth(s, s.len() as int) - 1);
                            }
                            return Err(unmatched_open_error(i));
                        }
                        let ghost old_cmds = commands@;
                        commands.push(Command::Loop { inner_commands: inner });
                        proof {
                            assert(depth(s, end + 1) == depth(s, end as int) - 1);
                            assert(commands@.subrange(0, commands@.len() - 1) =~= old_cmds);
                            let a = s.subrange(pos as int, i as int);
                            let b = s.subrange(i + 1, end as int);
                            assert(s.subrange(pos as int, end + 1) =~= a + seq![s[i as int]] + b
                                + seq![s[end as int]]);
                            lemma_program_text_concat(a + seq![s[i as int]] + b, seq![s[end as int]]);
                            lemma_program_text_concat(a + seq![s[i as int]], b);
                            lemma_program_text_concat(a, seq![s[i as int]]);
                            lemma_program_text_single(s[i as int]);
                            lemma_program_text_single(s[end as int]);
                            assert(render(commands@) =~= program_text(
                                s.subrange(pos as int, end + 1),
                            ));
                        }
                        i = end + 1;
                    },
                }
            } else {
                let ghost old_cmds = commands@;
                if c == '>' {
                    commands.push(Command::PtrIncr);
                } else if c == '<' {
                    commands.push(Command::PtrDecr);
                } else if c == '+' {
                    commands.push(Command::ValIncr);
                } else if c == '-' {
                    commands.push(Command::ValDecr);
                } else if c == '.' {
                    commands.push(Command::Output);
                } else if c == ',' {
                    commands.push(Command::Input);
                }
                proof {
                    assert(s.subrange(pos as int, i + 1).drop_last() =~= s.subrange(
                        pos as int,
                        i as int,
                    ));
                    if is_command_char(c) {
                        assert(commands@.subrange(0, commands@.len() - 1) =~= old_cmds);
                    } else {
                        assert(commands@ == old_cmds);
                    }
                    assert(render(commands@) =~= program_text(s.subrange(pos as int, i + 1)));
                }
                i = i + 1;
            }
        }
        Ok((commands, i))
    }
}

} // verus!
