use vstd::prelude::*;
use crate::task::{Task, TaskView, views_of, tasks_clean, text_clean, clean_char, lemma_views_of_index};
use crate::text::push_char;

verus! {

// The store is one JSON document: an array of objects, each holding the
// task's text and completion flag, in task order. The writer emits the
// compact form and escapes only the quote and the backslash; the loader
// additionally accepts whitespace between tokens and the standard string
// escapes, so that documents from other JSON writers load too. An object
// must hold exactly the members `text` and `completed`, in that order.

/// The opening of one encoded task, up to and including the quote that
/// starts the text.
pub open spec fn lit_open() -> Seq<char> {
    seq!['{', '"', 't', 'e', 'x', 't', '"', ':', '"']
}

/// The middle of one encoded task, from after the quote that ends the
/// text up to and including the colon before the completion flag.
pub open spec fn lit_mid() -> Seq<char> {
    seq![',', '"', 'c', 'o', 'm', 'p', 'l', 'e', 't', 'e', 'd', '"', ':']
}

/// The quoted name of the text member.
pub open spec fn lit_text_key() -> Seq<char> {
    seq!['"', 't', 'e', 'x', 't', '"']
}

/// The quoted name of the completion member.
pub open spec fn lit_completed_key() -> Seq<char> {
    seq!['"', 'c', 'o', 'm', 'p', 'l', 'e', 't', 'e', 'd', '"']
}

/// The encoded true completion flag.
pub open spec fn lit_true() -> Seq<char> {
    seq!['t', 'r', 'u', 'e']
}

/// The encoded false completion flag.
pub open spec fn lit_false() -> Seq<char> {
    seq!['f', 'a', 'l', 's', 'e']
}

/// The encoding of one text character: quote and backslash are escaped,
/// everything else stands for itself.
pub open spec fn esc_char(c: char) -> Seq<char> {
    if c == '"' || c == '\\' {
        seq!['\\', c]
    } else {
        seq![c]
    }
}

/// The encoding of a whole text.
pub open spec fn esc_text(t: Seq<char>) -> Seq<char>
    decreases t.len(),
{
    if t.len() == 0 {
        Seq::empty()
    } else {
        esc_char(t[0]) + esc_text(t.skip(1))
    }
}

/// The encoding of one task object.
pub open spec fn enc_task(t: TaskView) -> Seq<char> {
    lit_open() + esc_text(t.text) + seq!['"'] + lit_mid() + (if t.completed {
        lit_true()
    } else {
        lit_false()
    }) + seq!['}']
}

/// The encoding of a non-empty task sequence: the tasks separated by
/// commas, closed by the bracket that ends the array.
pub open spec fn enc_items(ts: Seq<TaskView>) -> Seq<char>
    decreases ts.len(),
{
    if ts.len() <= 1 {
        enc_task(ts[0]) + seq![']']
    } else {
        enc_task(ts[0]) + seq![','] + enc_items(ts.skip(1))
    }
}

/// The encoding of a task sequence as the persisted document.
pub open spec fn enc_tasks(ts: Seq<TaskView>) -> Seq<char> {
    if ts.len() == 0 {
        seq!['[', ']']
    } else {
        seq!['['] + enc_items(ts)
    }
}

/// The literal `lit` occurs in `s` at position `i`.
pub open spec fn lit_at(s: Seq<char>, i: int, lit: Seq<char>) -> bool {
    0 <= i && i + lit.len() <= s.len() && s.subrange(i, i + lit.len()) == lit
}

/// A JSON whitespace character.
pub open spec fn is_ws(c: char) -> bool {
    c == ' ' || c == '\t' || c == '\n' || c == '\r'
}

/// The first position at or after `i` that does not hold whitespace.
pub open spec fn skip_ws(s: Seq<char>, i: int) -> int
    decreases s.len() - i,
{
    if 0 <= i < s.len() && is_ws(s[i]) {
        skip_ws(s, i + 1)
    } else {
        i
    }
}

/// Skipping whitespace never moves backwards and never leaves the input.
pub proof fn lemma_skip_ws_bounds(s: Seq<char>, i: int)
    requires
        0 <= i <= s.len(),
    ensures
        i <= skip_ws(s, i) <= s.len(),
    decreases s.len() - i,
{
    if i < s.len() && is_ws(s[i]) {
        lemma_skip_ws_bounds(s, i + 1);
    }
}

/// The numeric value of a hexadecimal digit character, or -1.
pub open spec fn hex_val(c: char) -> int {
    if '0' as int <= c as int && c as int <= '9' as int {
        c as int - '0' as int
    } else if 'a' as int <= c as int && c as int <= 'f' as int {
        10 + c as int - 'a' as int
    } else if 'A' as int <= c as int && c as int <= 'F' as int {
        10 + c as int - 'A' as int
    } else {
        -1
    }
}

/// What a single-character string escape denotes.
pub open spec fn unescape(c: char) -> Option<char> {
    if c == '"' {
        Option::Some('"')
    } else if c == '\\' {
        Option::Some('\\')
    } else if c == '/' {
        Option::Some('/')
    } else if c == 'b' {
        Option::Some('\u{8}')
    } else if c == 'f' {
        Option::Some('\u{c}')
    } else if c == 'n' {
        Option::Some('\n')
    } else if c == 'r' {
        Option::Some('\r')
    } else if c == 't' {
        Option::Some('\t')
    } else {
        Option::None
    }
}

/// A code point that denotes a character: in range and not a surrogate.
pub open spec fn valid_scalar(v: int) -> bool {
    (0 <= v < 0xD800) || (0xE000 <= v <= 0x10FFFF)
}

/// The code point of a character.
pub open spec fn char_code(c: char) -> int {
    (c as u32) as int
}

/// The character with the given code point.
pub open spec fn char_of(v: int) -> char {
    choose|c: char| char_code(c) == v
}

/// Two characters with the same code point are the same character.
proof fn lemma_char_code_injective(a: char, b: char)
    requires
        a as u32 == b as u32,
    ensures
        a == b,
{
}

/// Parsing a text from position `i` (just after its opening quote) up to
/// and over its closing quote: the text read and the position after the
/// quote. Accepted escapes are the standard single-character ones and
/// `\u` with four hexadecimal digits naming a character; an unescaped
/// control character, a lone backslash, an unknown escape, a surrogate
/// code point, and a missing closing quote are all malformed.
pub open spec fn parse_text(s: Seq<char>, i: int) -> Option<(Seq<char>, int)>
    decreases s.len() - i,
{
    if i < 0 || i >= s.len() {
        Option::None
    } else if s[i] == '"' {
        Option::Some((Seq::empty(), i + 1))
    } else if s[i] == '\\' {
        if i + 1 < s.len() {
            match unescape(s[i + 1]) {
                Option::Some(e) => match parse_text(s, i + 2) {
                    Option::Some((t, j)) => Option::Some((seq![e] + t, j)),
                    Option::None => Option::None,
                },
                Option::None => {
                    if s[i + 1] == 'u' && i + 6 <= s.len() && hex_val(s[i + 2]) >= 0 && hex_val(
                        s[i + 3],
                    ) >= 0 && hex_val(s[i + 4]) >= 0 && hex_val(s[i + 5]) >= 0 {
                        let v = 4096 * hex_val(s[i + 2]) + 256 * hex_val(s[i + 3]) + 16 * hex_val(
                            s[i + 4],
                        ) + hex_val(s[i + 5]);
                        if valid_scalar(v) {
                            match parse_text(s, i + 6) {
                                Option::Some((t, j)) => Option::Some((seq![char_of(v)] + t, j)),
                                Option::None => Option::None,
                            }
                        } else {
                            Option::None
                        }
                    } else {
                        Option::None
                    }
                },
            }
        } else {
            Option::None
        }
    } else if (s[i] as u32) < 0x20 {
        Option::None
    } else {
        match parse_text(s, i + 1) {
            Option::Some((t, j)) => Option::Some((seq![s[i]] + t, j)),
            Option::None => Option::None,
        }
    }
}

/// Parsing a completion flag at position `i`.
pub open spec fn parse_flag(s: Seq<char>, i: int) -> Option<(bool, int)> {
    if lit_at(s, i, lit_true()) {
        Option::Some((true, i + 4))
    } else if lit_at(s, i, lit_false()) {
        Option::Some((false, i + 5))
    } else {
        Option::None
    }
}

/// Parsing one task object at position `i`: the task and the position
/// after its closing brace. Whitespace may stand between the tokens.
pub open spec fn parse_task(s: Seq<char>, i: int) -> Option<(TaskView, int)> {
    if 0 <= i && i < s.len() && s[i] == '{' {
        let i1 = skip_ws(s, i + 1);
        if lit_at(s, i1, lit_text_key()) {
            let i2 = skip_ws(s, i1 + 6);
            if i2 < s.len() && s[i2] == ':' {
                let i3 = skip_ws(s, i2 + 1);
                if i3 < s.len() && s[i3] == '"' {
                    match parse_text(s, i3 + 1) {
                        Option::Some((txt, j)) => {
                            let j1 = skip_ws(s, j);
                            if j1 < s.len() && s[j1] == ',' {
                                let j2 = skip_ws(s, j1 + 1);
                                if lit_at(s, j2, lit_completed_key()) {
                                    let j3 = skip_ws(s, j2 + 11);
                                    if j3 < s.len() && s[j3] == ':' {
                                        match parse_flag(s, skip_ws(s, j3 + 1)) {
                                            Option::Some((b, k)) => {
                                                let k1 = skip_ws(s, k);
                                                if k1 < s.len() && s[k1] == '}' {
                                                    Option::Some(
                                                        (TaskView { text: txt, completed: b }, k1 + 1),
                                                    )
                                                } else {
                                                    Option::None
                                                }
                                            },
                                            Option::None => Option::None,
                                        }
                                    } else {
                                        Option::None
                                    }
                                } else {
                                    Option::None
                                }
                            } else {
                                Option::None
                            }
                        },
                        Option::None => Option::None,
                    }
                } else {
                    Option::None
                }
            } else {
                Option::None
            }
        } else {
            Option::None
        }
    } else {
        Option::None
    }
}

/// A parsed text ends after the position it started at, within the input.
pub proof fn lemma_parse_text_advances(s: Seq<char>, i: int)
    ensures
        parse_text(s, i) matches Option::Some((t, j)) ==> i + 1 <= j <= s.len(),
    decreases s.len() - i,
{
    if 0 <= i < s.len() {
        if s[i] == '\\' {
            if i + 1 < s.len() {
                lemma_parse_text_advances(s, i + 2);
                if i + 6 <= s.len() {
                    lemma_parse_text_advances(s, i + 6);
                }
            }
        } else if s[i] != '"' && (s[i] as u32) >= 0x20 {
            lemma_parse_text_advances(s, i + 1);
        }
    }
}

/// A parsed task ends after the position it started at, within the input.
pub proof fn lemma_parse_task_advances(s: Seq<char>, i: int)
    ensures
        parse_task(s, i) matches Option::Some((t, j)) ==> i < j <= s.len(),
{
    if 0 <= i && i < s.len() && s[i] == '{' {
        lemma_skip_ws_bounds(s, i + 1);
        let i1 = skip_ws(s, i + 1);
        if lit_at(s, i1, lit_text_key()) {
            lemma_skip_ws_bounds(s, i1 + 6);
            let i2 = skip_ws(s, i1 + 6);
            if i2 < s.len() && s[i2] == ':' {
                lemma_skip_ws_bounds(s, i2 + 1);
                let i3 = skip_ws(s, i2 + 1);
                if i3 < s.len() && s[i3] == '"' {
                    lemma_parse_text_advances(s, i3 + 1);
                    match parse_text(s, i3 + 1) {
                        Option::Some((txt, j)) => {
                            lemma_skip_ws_bounds(s, j);
                            let j1 = skip_ws(s, j);
                            if j1 < s.len() && s[j1] == ',' {
                                lemma_skip_ws_bounds(s, j1 + 1);
                                let j2 = skip_ws(s, j1 + 1);
                                if lit_at(s, j2, lit_completed_key()) {
                                    lemma_skip_ws_bounds(s, j2 + 11);
                                    let j3 = skip_ws(s, j2 + 11);
                                    if j3 < s.len() && s[j3] == ':' {
                                        lemma_skip_ws_bounds(s, j3 + 1);
                                        match parse_flag(s, skip_ws(s, j3 + 1)) {
                                            Option::Some((b, k)) => {
                                                lemma_skip_ws_bounds(s, k);
                                            },
                                            Option::None => {},
                                        }
                                    }
                                }
                            }
                        },
                        Option::None => {},
                    }
                }
            }
        }
    }
}

/// Parsing the elements of a non-empty array from position `i`: one task,
/// then either the closing bracket or a comma and further elements.
pub open spec fn parse_items(s: Seq<char>, i: int) -> Option<(Seq<TaskView>, int)>
    decreases s.len() - i,
    via parse_items_dec
{
    let i0 = skip_ws(s, i);
    match parse_task(s, i0) {
        Option::Some((t, j)) => {
            let j0 = skip_ws(s, j);
            if j0 < s.len() && s[j0] == ']' {
                Option::Some((seq![t], j0 + 1))
            } else if j0 < s.len() && s[j0] == ',' {
                match parse_items(s, j0 + 1) {
                    Option::Some((ts, k)) => Option::Some((seq![t] + ts, k)),
                    Option::None => Option::None,
                }
            } else {
                Option::None
            }
        },
        Option::None => Option::None,
    }
}

#[via_fn]
proof fn parse_items_dec(s: Seq<char>, i: int) {
    if 0 <= i <= s.len() {
        lemma_skip_ws_bounds(s, i);
    }
    let i0 = skip_ws(s, i);
    lemma_parse_task_advances(s, i0);
    match parse_task(s, i0) {
        Option::Some((t, j)) => {
            if 0 <= j <= s.len() {
                lemma_skip_ws_bounds(s, j);
            }
        },
        Option::None => {},
    }
}

/// Parsing the whole persisted document: a bracketed, possibly empty list
/// of task objects, with nothing but whitespace before or after.
pub open spec fn parse_tasks(s: Seq<char>) -> Option<Seq<TaskView>> {
    let i0 = skip_ws(s, 0);
    if i0 < s.len() && s[i0] == '[' {
        let i1 = skip_ws(s, i0 + 1);
        if i1 < s.len() && s[i1] == ']' {
            if skip_ws(s, i1 + 1) == s.len() {
                Option::Some(Seq::empty())
            } else {
                Option::None
            }
        } else {
            match parse_items(s, i0 + 1) {
                Option::Some((ts, j)) => if skip_ws(s, j) == s.len() {
                    Option::Some(ts)
                } else {
                    Option::None
                },
                Option::None => Option::None,
            }
        }
    } else {
        Option::None
    }
}

/// Parsing an encoded clean text succeeds and reads back exactly the text.
proof fn lemma_parse_text_of_enc(s: Seq<char>, i: int, t: Seq<char>)
    requires
        text_clean(t),
        0 <= i,
        i + esc_text(t).len() + 1 <= s.len(),
        s.subrange(i, i + esc_text(t).len()) == esc_text(t),
        s[i + esc_text(t).len()] == '"',
    ensures
        parse_text(s, i) == Option::Some((t, i + esc_text(t).len() + 1)),
    decreases t.len(),
{
    let e = esc_text(t);
    assert forall|k: int| 0 <= k < e.len() implies s[i + k] == e[k] by {
        assert(s.subrange(i, i + e.len())[k] == s[i + k]);
    }
    if t.len() == 0 {
        assert(t =~= Seq::<char>::empty());
    } else {
        let c = t[0];
        let rest = t.skip(1);
        let er = esc_text(rest);
        assert(e == esc_char(c) + er);
        assert forall|k: int| 0 <= k < rest.len() implies clean_char(#[trigger] rest[k]) by {
            assert(rest[k] == t[k + 1]);
        }
        if c == '"' || c == '\\' {
            assert(s[i + 0] == e[0] && s[i + 1] == e[1]);
            assert(s[i] == '\\' && s[i + 1] == c);
            assert(unescape(c) == Option::Some(c));
            assert forall|k: int| 0 <= k < er.len() implies s.subrange(
                i + 2,
                i + 2 + er.len(),
            )[k] == er[k] by {
                assert(e[2 + k] == er[k]);
            }
            assert(s.subrange(i + 2, i + 2 + er.len()) =~= er);
            lemma_parse_text_of_enc(s, i + 2, rest);
            assert(seq![c] + rest =~= t);
        } else {
            assert(s[i + 0] == e[0]);
            assert(s[i] == c);
            assert(clean_char(c));
            assert forall|k: int| 0 <= k < er.len() implies s.subrange(
                i + 1,
                i + 1 + er.len(),
            )[k] == er[k] by {
                assert(e[1 + k] == er[k]);
            }
            assert(s.subrange(i + 1, i + 1 + er.len()) =~= er);
            lemma_parse_text_of_enc(s, i + 1, rest);
            assert(seq![c] + rest =~= t);
        }
    }
}

/// Parsing an encoded task succeeds and reads back exactly the task.
proof fn lemma_parse_task_of_enc(s: Seq<char>, i: int, t: TaskView)
    requires
        text_clean(t.text),
        0 <= i,
        i + enc_task(t).len() <= s.len(),
        s.subrange(i, i + enc_task(t).len()) == enc_task(t),
    ensures
        parse_task(s, i) == Option::Some((t, i + enc_task(t).len())),
{
    let e = enc_task(t);
    let et = esc_text(t.text);
    let fl = if t.completed {
        lit_true()
    } else {
        lit_false()
    };
    assert forall|k: int| 0 <= k < e.len() implies s[i + k] == e[k] by {
        assert(s.subrange(i, i + e.len())[k] == s[i + k]);
    }
    // the object's tokens stand back to back, with no whitespace between
    assert(s[i + 0] == e[0] && e[0] == '{');
    assert(s[i + 1] == e[1] && e[1] == '"');
    assert(skip_ws(s, i + 1) == i + 1);
    assert forall|k: int| 0 <= k < 6 implies s.subrange(i + 1, i + 7)[k] == lit_text_key()[k] by {
        assert(s[(i + 1) + k] == e[1 + k]);
    }
    assert(s.subrange(i + 1, i + 7) =~= lit_text_key());
    assert(lit_at(s, i + 1, lit_text_key()));
    assert(s[i + 7] == e[7] && e[7] == ':');
    assert(skip_ws(s, i + 7) == i + 7);
    assert(s[i + 8] == e[8] && e[8] == '"');
    assert(skip_ws(s, i + 8) == i + 8);
    // the text and its closing quote
    let p = i + 9;
    assert forall|k: int| 0 <= k < et.len() implies s.subrange(p, p + et.len() as int)[k] == et[k]
        by {
        assert(s[p + k] == e[9 + k]);
    }
    assert(s.subrange(p, p + et.len() as int) =~= et);
    assert(s[p + et.len() as int] == e[9 + et.len() as int]);
    assert(e[9 + et.len() as int] == '"');
    lemma_parse_text_of_enc(s, p, t.text);
    let j = p + et.len() as int + 1;
    // the separator and the completed key
    assert(s[j] == e[(j - i)] && e[(j - i)] == ',');
    assert(skip_ws(s, j) == j);
    assert(s[j + 1] == e[(j - i) + 1] && e[(j - i) + 1] == '"');
    assert(skip_ws(s, j + 1) == j + 1);
    assert forall|k: int| 0 <= k < 11 implies s.subrange(j + 1, j + 12)[k]
        == lit_completed_key()[k] by {
        assert(s[(j + 1) + k] == e[((j - i) + 1) + k]);
    }
    assert(s.subrange(j + 1, j + 12) =~= lit_completed_key());
    assert(lit_at(s, j + 1, lit_completed_key()));
    assert(s[j + 12] == e[(j - i) + 12] && e[(j - i) + 12] == ':');
    assert(skip_ws(s, j + 12) == j + 12);
    // the completion flag
    let q = j + 13;
    assert forall|k: int| 0 <= k < fl.len() implies s.subrange(q, q + fl.len() as int)[k] == fl[k]
        by {
        assert(s[q + k] == e[(q - i) + k]);
    }
    assert(s.subrange(q, q + fl.len() as int) =~= fl);
    assert(lit_at(s, q, fl));
    assert(s[q] == e[(q - i)]);
    assert(skip_ws(s, j + 13) == j + 13);
    if t.completed {
        assert(parse_flag(s, q) == Option::Some((true, q + 4)));
    } else {
        if lit_at(s, q, lit_true()) {
            assert(s.subrange(q, q + 4)[0] == 't');
            assert(s[q] == 'f');
            assert(false);
        }
        assert(parse_flag(s, q) == Option::Some((false, q + 5)));
    }
    // the closing brace
    let k = q + fl.len() as int;
    assert(s[k] == e[(k - i)]);
    assert(e[(k - i)] == '}');
    assert(skip_ws(s, k) == k);
    assert(TaskView { text: t.text, completed: t.completed } =~= t);
    assert(k + 1 == i + e.len());
}

/// Parsing encoded array elements succeeds and reads back exactly the tasks.
proof fn lemma_parse_items_of_enc(s: Seq<char>, i: int, ts: Seq<TaskView>)
    requires
        ts.len() >= 1,
        tasks_clean(ts),
        0 <= i,
        i + enc_items(ts).len() <= s.len(),
        s.subrange(i, i + enc_items(ts).len()) == enc_items(ts),
    ensures
        parse_items(s, i) == Option::Some((ts, i + enc_items(ts).len())),
    decreases ts.len(),
{
    let e = enc_items(ts);
    let e0 = enc_task(ts[0]);
    assert forall|k: int| 0 <= k < e.len() implies s[i + k] == e[k] by {
        assert(s.subrange(i, i + e.len())[k] == s[i + k]);
    }
    assert forall|k: int| 0 <= k < e0.len() implies s.subrange(i, i + e0.len())[k] == e0[k] by {
        assert(e[k] == e0[k]);
    }
    assert(s.subrange(i, i + e0.len()) =~= e0);
    assert(text_clean(ts[0].text));
    assert(s[i + 0] == e[0] && e[0] == '{');
    assert(skip_ws(s, i) == i);
    lemma_parse_task_of_enc(s, i, ts[0]);
    let j = i + e0.len();
    if ts.len() == 1 {
        assert(s[j] == e[(j - i)]);
        assert(e[(j - i)] == ']');
        assert(skip_ws(s, j) == j);
        assert(seq![ts[0]] =~= ts);
    } else {
        assert(s[j] == e[(j - i)]);
        assert(e[(j - i)] == ',');
        assert(skip_ws(s, j) == j);
        let rest = ts.skip(1);
        let er = enc_items(rest);
        assert forall|k: int| 0 <= k < rest.len() implies text_clean(#[trigger] rest[k].text) by {
            assert(rest[k] == ts[k + 1]);
        }
        assert forall|k: int| 0 <= k < er.len() implies s.subrange(
            j + 1,
            j + 1 + er.len(),
        )[k] == er[k] by {
            assert(e[(j + 1 - i) + k] == er[k]);
        }
        assert(s.subrange(j + 1, j + 1 + er.len()) =~= er);
        lemma_parse_items_of_enc(s, j + 1, rest);
        assert(seq![ts[0]] + rest =~= ts);
    }
}

/// Law: saving a task sequence and loading it back reproduces exactly the
/// same sequence: same order, same texts, same completion flags. This
/// holds for every task sequence whose texts are free of control
/// characters, which every sequence built through the state machine is.
pub proof fn lemma_round_trip(ts: Seq<TaskView>)
    requires
        tasks_clean(ts),
    ensures
        parse_tasks(enc_tasks(ts)) == Option::Some(ts),
{
    let s = enc_tasks(ts);
    if ts.len() == 0 {
        assert(s.len() == 2 && s[0] == '[' && s[1] == ']');
        assert(skip_ws(s, 0) == 0);
        assert(skip_ws(s, 1) == 1);
        assert(ts =~= Seq::<TaskView>::empty());
    } else {
        let e = enc_items(ts);
        assert(s == seq!['['] + e);
        assert(s[0] == '[');
        assert(skip_ws(s, 0) == 0);
        assert(e.len() >= enc_task(ts[0]).len() + 1) by {
            if ts.len() > 1 {
                assert(e == enc_task(ts[0]) + seq![','] + enc_items(ts.skip(1)));
            }
        }
        assert(s[1] == e[0]);
        assert(e[0] == enc_task(ts[0])[0]);
        assert(enc_task(ts[0])[0] == '{');
        assert(skip_ws(s, 1) == 1);
        assert(s.subrange(1, 1 + e.len() as int) =~= e);
        lemma_parse_items_of_enc(s, 1, ts);
    }
}

/// Escaping distributes over appending one character at the end.
proof fn lemma_esc_text_snoc(u: Seq<char>, c: char)
    ensures
        esc_text(u.push(c)) == esc_text(u) + esc_char(c),
    decreases u.len(),
{
    if u.len() == 0 {
        assert(u =~= Seq::<char>::empty());
        assert(u.push(c)[0] == c);
        assert(u.push(c).skip(1) =~= Seq::<char>::empty());
        assert(esc_text(Seq::<char>::empty()) == Seq::<char>::empty());
        assert(esc_text(u.push(c)) == esc_char(c) + esc_text(u.push(c).skip(1)));
        assert(esc_text(u.push(c)) =~= esc_text(u) + esc_char(c));
    } else {
        assert(u.push(c)[0] == u[0]);
        assert(u.push(c).skip(1) =~= u.skip(1).push(c));
        lemma_esc_text_snoc(u.skip(1), c);
        assert(esc_text(u.push(c)) == esc_char(u.push(c)[0]) + esc_text(u.push(c).skip(1)));
        assert(esc_text(u.push(c).skip(1)) == esc_text(u.skip(1).push(c)));
        assert(esc_text(u.push(c)) =~= esc_text(u) + esc_char(c));
    }
}

/// Encode one task as its JSON object.
#[verifier::loop_isolation(false)]
fn encode_task(t: &Task) -> (r: String)
    requires
        text_clean(t@.text),
    ensures
        r@ == enc_task(t@),
{
    let mut r = String::from_str("{\"text\":\"");
    proof {
        reveal_strlit("{\"text\":\"");
        assert(r@ =~= lit_open());
    }
    let text = &t.text;
    let n = text.as_str().unicode_len();
    let mut k: usize = 0;
    while k < n
        invariant
            0 <= k <= n,
            n == text@.len(),
            r@ == lit_open() + esc_text(text@.take(k as int)),
        decreases n - k,
    {
        let c = text.as_str().get_char(k);
        proof {
            assert(text@.take(k + 1) =~= text@.take(k as int).push(text@[k as int]));
            lemma_esc_text_snoc(text@.take(k as int), text@[k as int]);
        }
        if c == '"' || c == '\\' {
            push_char(&mut r, '\\');
            push_char(&mut r, c);
            proof {
                assert(r@ =~= lit_open() + esc_text(text@.take(k + 1)));
            }
        } else {
            push_char(&mut r, c);
            proof {
                assert(r@ =~= lit_open() + esc_text(text@.take(k + 1)));
            }
        }
        k += 1;
    }
    proof {
        assert(text@.take(n as int) =~= text@);
    }
    r.append("\",\"completed\":");
    if t.completed {
        r.append("true");
    } else {
        r.append("false");
    }
    r.append("}");
    proof {
        reveal_strlit("\",\"completed\":");
        reveal_strlit("true");
        reveal_strlit("false");
        reveal_strlit("}");
        assert(r@ =~= enc_task(t@));
    }
    r
}

/// Encode a task vector as the persisted JSON document, in the compact
/// form. The caller saves the returned text as the whole store file.
#[verifier::loop_isolation(false)]
pub fn encode_tasks(tasks: &Vec<Task>) -> (r: String)
    requires
        tasks_clean(views_of(tasks@)),
    ensures
        r@ == enc_tasks(views_of(tasks@)),
{
    broadcast use lemma_views_of_index;

    let ghost vs = views_of(tasks@);
    if tasks.len() == 0 {
        let r = String::from_str("[]");
        proof {
            reveal_strlit("[]");
            assert(vs.len() == 0);
            assert(r@ =~= enc_tasks(vs));
        }
        return r;
    }
    let mut r = String::from_str("[");
    proof {
        reveal_strlit("[");
        reveal_strlit(",");
        reveal_strlit("]");
        assert(vs.skip(0) =~= vs);
    }
    let mut k: usize = 0;
    while k + 1 < tasks.len()
        invariant
            0 <= k < tasks.len(),
            r@ + enc_items(vs.skip(k as int)) == seq!['['] + enc_items(vs),
        decreases tasks.len() - k,
    {
        proof {
            assert(text_clean(vs[k as int].text));
        }
        let piece = encode_task(&tasks[k]);
        r.append(piece.as_str());
        r.append(",");
        proof {
            assert(vs.skip(k as int)[0] == vs[k as int]);
            assert(vs.skip(k as int).skip(1) =~= vs.skip(k + 1));
            assert(enc_items(vs.skip(k as int)) == enc_task(vs[k as int]) + seq![','] + enc_items(
                vs.skip(k + 1),
            ));
            assert(r@ + enc_items(vs.skip(k + 1)) =~= seq!['['] + enc_items(vs));
        }
        k += 1;
    }
    proof {
        assert(text_clean(vs[k as int].text));
    }
    let piece = encode_task(&tasks[k]);
    r.append(piece.as_str());
    r.append("]");
    proof {
        assert(vs.skip(k as int).len() == 1);
        assert(vs.skip(k as int)[0] == vs[k as int]);
        assert(enc_items(vs.skip(k as int)) == enc_task(vs[k as int]) + seq![']']);
        assert(r@ =~= seq!['['] + enc_items(vs));
    }
    r
}

/// Relies on `char::from_u32`: the character with the given code point,
/// or nothing exactly when the value is a surrogate or out of range.
pub assume_specification[ char::from_u32 ](v: u32) -> (r: Option<char>)
    ensures
        r matches Option::Some(c) ==> c as u32 == v,
        r is Some <==> valid_scalar(v as int),
;

/// The value of a hexadecimal digit character, if it is one.
fn hex_digit(c: char) -> (r: Option<u32>)
    ensures
        r matches Option::Some(v) ==> hex_val(c) == v as int && v < 16,
        r is None <==> hex_val(c) < 0,
{
    let u = c as u32;
    if u >= 0x30 && u <= 0x39 {
        Some(u - 0x30)
    } else if u >= 0x61 && u <= 0x66 {
        Some(10 + (u - 0x61))
    } else if u >= 0x41 && u <= 0x46 {
        Some(10 + (u - 0x41))
    } else {
        None
    }
}

/// Move past whitespace, starting at position `i`.
#[verifier::loop_isolation(false)]
fn skip_ws_exec(s: &str, n: usize, i: usize) -> (r: usize)
    requires
        n == s@.len(),
        i <= n,
    ensures
        r as int == skip_ws(s@, i as int),
        i <= r <= n,
{
    let mut p = i;
    while p < n
        invariant
            i <= p <= n,
            skip_ws(s@, i as int) == skip_ws(s@, p as int),
        decreases n - p,
    {
        let c = s.get_char(p);
        if !(c == ' ' || c == '\t' || c == '\n' || c == '\r') {
            proof {
                assert(skip_ws(s@, p as int) == p as int);
            }
            return p;
        }
        p += 1;
    }
    proof {
        assert(skip_ws(s@, p as int) == p as int);
    }
    p
}

/// Whether the literal occurs at position `i` of the input.
#[verifier::loop_isolation(false)]
fn decode_lit(s: &str, n: usize, i: usize, lit: &str) -> (r: bool)
    requires
        n == s@.len(),
    ensures
        r == lit_at(s@, i as int, lit@),
{
    let m = lit.unicode_len();
    if i > n || m > n - i {
        proof {
            assert(!lit_at(s@, i as int, lit@));
        }
        return false;
    }
    let mut k: usize = 0;
    while k < m
        invariant
            0 <= k <= m,
            m == lit@.len(),
            i + m <= n,
            forall|k2: int| 0 <= k2 < k ==> s@[i + k2] == lit@[k2],
        decreases m - k,
    {
        if s.get_char(i + k) != lit.get_char(k) {
            proof {
                if lit_at(s@, i as int, lit@) {
                    assert(s@.subrange(i as int, i + lit@.len())[k as int] == lit@[k as int]);
                }
            }
            return false;
        }
        k += 1;
    }
    proof {
        assert forall|k2: int| 0 <= k2 < lit@.len() implies s@.subrange(
            i as int,
            i + lit@.len(),
        )[k2] == lit@[k2] by {
            assert(s@[i + k2] == lit@[k2]);
        }
        assert(s@.subrange(i as int, i + lit@.len()) =~= lit@);
    }
    true
}

/// Read a text from position `i` (just after its opening quote) over its
/// closing quote, appending the characters read to `out`.
#[verifier::loop_isolation(false)]
fn decode_text_into(s: &str, n: usize, i: usize, out: &mut String) -> (r: Option<usize>)
    requires
        n == s@.len(),
        i <= n,
    ensures
        match r {
            Option::Some(j) => parse_text(s@, i as int) matches Option::Some((t, jj)) && jj == j
                && final(out)@ == old(out)@ + t && i < j <= n,
            Option::None => parse_text(s@, i as int) is None,
        },
{
    let ghost base = out@;
    let ghost mut written: Seq<char> = Seq::empty();
    proof {
        assert(base + written =~= base);
    }
    let mut pos = i;
    loop
        invariant
            i <= pos <= n,
            n == s@.len(),
            base == old(out)@,
            out@ == base + written,
            (match parse_text(s@, pos as int) {
                Option::Some((t, j)) => parse_text(s@, i as int) == Option::Some(
                    (written + t, j),
                ),
                Option::None => parse_text(s@, i as int) is None,
            }),
        decreases n - pos,
    {
        if pos >= n {
            return None;
        }
        let c = s.get_char(pos);
        if c == '"' {
            proof {
                assert(parse_text(s@, pos as int) == Option::Some(
                    (Seq::<char>::empty(), pos + 1),
                ));
                assert(written + Seq::<char>::empty() =~= written);
            }
            return Some(pos + 1);
        } else if c == '\\' {
            if pos + 1 >= n {
                return None;
            }
            let c2 = s.get_char(pos + 1);
            let m: Option<char> = if c2 == '"' {
                Some('"')
            } else if c2 == '\\' {
                Some('\\')
            } else if c2 == '/' {
                Some('/')
            } else if c2 == 'b' {
                Some('\u{8}')
            } else if c2 == 'f' {
                Some('\u{c}')
            } else if c2 == 'n' {
                Some('\n')
            } else if c2 == 'r' {
                Some('\r')
            } else if c2 == 't' {
                Some('\t')
            } else {
                None
            };
            proof {
                assert(m == unescape(c2));
            }
            match m {
                Some(e) => {
                    push_char(out, e);
                    proof {
                        let ghost prev = written;
                        written = written.push(e);
                        assert(out@ =~= base + written);
                        match parse_text(s@, pos + 2) {
                            Option::Some((t2, j2)) => {
                                assert(parse_text(s@, pos as int) == Option::Some(
                                    (seq![e] + t2, j2),
                                ));
                                assert(prev + (seq![e] + t2) =~= written + t2);
                            },
                            Option::None => {},
                        }
                    }
                    pos = pos + 2;
                },
                None => {
                    if !(c2 == 'u') {
                        return None;
                    }
                    if n - pos < 6 {
                        return None;
                    }
                    let h1 = match hex_digit(s.get_char(pos + 2)) {
                        Some(v) => v,
                        None => {
                            return None;
                        },
                    };
                    let h2 = match hex_digit(s.get_char(pos + 3)) {
                        Some(v) => v,
                        None => {
                            return None;
                        },
                    };
                    let h3 = match hex_digit(s.get_char(pos + 4)) {
                        Some(v) => v,
                        None => {
                            return None;
                        },
                    };
                    let h4 = match hex_digit(s.get_char(pos + 5)) {
                        Some(v) => v,
                        None => {
                            return None;
                        },
                    };
                    let v: u32 = 4096 * h1 + 256 * h2 + 16 * h3 + h4;
                    match char::from_u32(v) {
                        Some(e) => {
                            push_char(out, e);
                            proof {
                                assert(e as u32 == v);
                                assert(char_code(char_of(v as int)) == v as int) by {
                                    assert(exists|c0: char| char_code(c0) == v as int) by {
                                        assert(char_code(e) == v as int);
                                    }
                                    assert(char_code(char_of(v as int)) == v as int);
                                }
                                assert(char_of(v as int) as u32 == e as u32);
                                lemma_char_code_injective(char_of(v as int), e);
                                assert(char_of(v as int) == e);
                                let ghost prev = written;
                                written = written.push(e);
                                assert(out@ =~= base + written);
                                match parse_text(s@, pos + 6) {
                                    Option::Some((t2, j2)) => {
                                        assert(parse_text(s@, pos as int) == Option::Some(
                                            (seq![char_of(v as int)] + t2, j2),
                                        ));
                                        assert(prev + (seq![e] + t2) =~= written + t2);
                                    },
                                    Option::None => {},
                                }
                            }
                            pos = pos + 6;
                        },
                        None => {
                            return None;
                        },
                    }
                },
            }
        } else if (c as u32) < 0x20 {
            return None;
        } else {
            push_char(out, c);
            proof {
                let ghost prev = written;
                written = written.push(c);
                assert(out@ =~= base + written);
                match parse_text(s@, pos + 1) {
                    Option::Some((t2, j2)) => {
                        assert(parse_text(s@, pos as int) == Option::Some((seq![c] + t2, j2)));
                        assert(prev + (seq![c] + t2) =~= written + t2);
                    },
                    Option::None => {},
                }
            }
            pos = pos + 1;
        }
    }
}

/// Read a completion flag at position `i`.
fn decode_flag(s: &str, n: usize, i: usize) -> (r: Option<(bool, usize)>)
    requires
        n == s@.len(),
    ensures
        match r {
            Option::Some((b, j)) => parse_flag(s@, i as int) == Option::Some((b, j as int)) && j
                <= n,
            Option::None => parse_flag(s@, i as int) is None,
        },
{
    proof {
        reveal_strlit("true");
        reveal_strlit("false");
        assert("true"@ =~= lit_true());
        assert("false"@ =~= lit_false());
    }
    if decode_lit(s, n, i, "true") {
        Some((true, i + 4))
    } else if decode_lit(s, n, i, "false") {
        Some((false, i + 5))
    } else {
        None
    }
}

/// Read one task object at position `i`.
fn decode_task(s: &str, n: usize, i: usize) -> (r: Option<(Task, usize)>)
    requires
        n == s@.len(),
        i <= n,
    ensures
        match r {
            Option::Some((t, j)) => parse_task(s@, i as int) == Option::Some((t@, j as int)) && i
                < j <= n,
            Option::None => parse_task(s@, i as int) is None,
        },
{
    proof {
        reveal_strlit("\"text\"");
        assert("\"text\""@ =~= lit_text_key());
        reveal_strlit("\"completed\"");
        assert("\"completed\""@ =~= lit_completed_key());
    }
    if !(i < n && s.get_char(i) == '{') {
        return None;
    }
    let i1 = skip_ws_exec(s, n, i + 1);
    if !decode_lit(s, n, i1, "\"text\"") {
        return None;
    }
    let i2 = skip_ws_exec(s, n, i1 + 6);
    if !(i2 < n && s.get_char(i2) == ':') {
        return None;
    }
    let i3 = skip_ws_exec(s, n, i2 + 1);
    if !(i3 < n && s.get_char(i3) == '"') {
        return None;
    }
    let mut text = String::new();
    let j = match decode_text_into(s, n, i3 + 1, &mut text) {
        Option::Some(j) => j,
        Option::None => {
            return None;
        },
    };
    let j1 = skip_ws_exec(s, n, j);
    if !(j1 < n && s.get_char(j1) == ',') {
        return None;
    }
    let j2 = skip_ws_exec(s, n, j1 + 1);
    if !decode_lit(s, n, j2, "\"completed\"") {
        return None;
    }
    let j3 = skip_ws_exec(s, n, j2 + 11);
    if !(j3 < n && s.get_char(j3) == ':') {
        return None;
    }
    let j4 = skip_ws_exec(s, n, j3 + 1);
    let (b, k) = match decode_flag(s, n, j4) {
        Option::Some(bk) => bk,
        Option::None => {
            return None;
        },
    };
    let k1 = skip_ws_exec(s, n, k);
    if k1 < n && s.get_char(k1) == '}' {
        let t = Task { text, completed: b };
        proof {
            match parse_text(s@, i3 + 1) {
                Option::Some((txt, jt)) => {
                    assert(t@ =~= (TaskView { text: txt, completed: b }));
                },
                Option::None => {
                    assert(false);
                },
            }
        }
        Some((t, k1 + 1))
    } else {
        None
    }
}

/// Read the elements of a non-empty array from position `i` on.
#[verifier::loop_isolation(false)]
fn decode_items(s: &str, n: usize, i: usize) -> (r: Option<(Vec<Task>, usize)>)
    requires
        n == s@.len(),
        i <= n,
    ensures
        match r {
            Option::Some((v, j)) => parse_items(s@, i as int) == Option::Some(
                (views_of(v@), j as int),
            ) && i < j <= n,
            Option::None => parse_items(s@, i as int) is None,
        },
{
    broadcast use lemma_views_of_index;

    let mut v: Vec<Task> = Vec::new();
    let mut pos = i;
    loop
        invariant
            i <= pos <= n,
            n == s@.len(),
            (match parse_items(s@, pos as int) {
                Option::Some((ts, j)) => parse_items(s@, i as int) == Option::Some(
                    (views_of(v@) + ts, j),
                ),
                Option::None => parse_items(s@, i as int) is None,
            }),
        decreases n - pos,
    {
        let p0 = skip_ws_exec(s, n, pos);
        let (t, j) = match decode_task(s, n, p0) {
            Option::Some(tj) => tj,
            Option::None => {
                return None;
            },
        };
        let ghost te = t;
        let ghost w = v@;
        v.push(t);
        proof {
            crate::task::lemma_views_of_push(w, te);
        }
        let j0 = skip_ws_exec(s, n, j);
        if j0 < n && s.get_char(j0) == ']' {
            proof {
                assert(parse_items(s@, pos as int) == Option::Some((seq![te@], j0 + 1)));
                assert(views_of(w) + seq![te@] =~= views_of(v@));
            }
            return Some((v, j0 + 1));
        } else if j0 < n && s.get_char(j0) == ',' {
            proof {
                match parse_items(s@, j0 + 1) {
                    Option::Some((ts, k)) => {
                        assert(parse_items(s@, pos as int) == Option::Some((seq![te@] + ts, k)));
                        assert(views_of(w) + (seq![te@] + ts) =~= views_of(v@) + ts);
                    },
                    Option::None => {},
                }
            }
            pos = j0 + 1;
        } else {
            return None;
        }
    }
}

/// Decode the persisted JSON document. Returns the tasks exactly when the
/// text is in the accepted format, and nothing when it is malformed. A
/// decoded text may hold control characters, written as escapes; the
/// caller decides whether to accept such tasks.
pub fn decode_tasks(s: &str) -> (r: Option<Vec<Task>>)
    ensures
        match r {
            Option::Some(v) => parse_tasks(s@) == Option::Some(views_of(v@)),
            Option::None => parse_tasks(s@) is None,
        },
{
    let n = s.unicode_len();
    let i0 = skip_ws_exec(s, n, 0);
    if !(i0 < n && s.get_char(i0) == '[') {
        return None;
    }
    let i1 = skip_ws_exec(s, n, i0 + 1);
    if i1 < n && s.get_char(i1) == ']' {
        let end = skip_ws_exec(s, n, i1 + 1);
        if end == n {
            let v: Vec<Task> = Vec::new();
            proof {
                assert(views_of(v@) =~= Seq::<TaskView>::empty());
            }
            Some(v)
        } else {
            None
        }
    } else {
        match decode_items(s, n, i0 + 1) {
            Option::Some((v, j)) => {
                let end = skip_ws_exec(s, n, j);
                if end == n {
                    Some(v)
                } else {
                    None
                }
            },
            Option::None => None,
        }
    }
}

} // verus!
