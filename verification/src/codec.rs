//! The storage format of the task list, and its verified codec.
//!
//! A collection is published as a JSON array, one object per item, fields in
//! a fixed order and without spacing — exactly the shape
//! `[{"id":1,"text":"...","completed":false}]` for plain items, and
//! `[{"text":"...","completed":false,"priority":1}]` for prioritized ones.
//! Text is escaped as JSON requires: quote, backslash and the named control
//! characters by a backslash pair, any other control character as a four-digit
//! hex escape. The reader accepts exactly what the writer emits (it is strict
//! about spacing and field order, tolerant about hex case and leading zeros in
//! numbers), and reading back a published collection yields the collection
//! unchanged — proved in the round-trip lemmas at the end of this module.

use vstd::prelude::*;

use crate::item::{Item, ItemModel, StoreError};
use vstd::string::StrSliceExecFns;
use crate::todo_item::{TodoItem, TodoModel};

verus! {

// ===== characters and digits =====

/// The decimal digit character for a value below ten.
pub open spec fn digit_char(n: nat) -> char {
    if n == 0 {
        '0'
    } else if n == 1 {
        '1'
    } else if n == 2 {
        '2'
    } else if n == 3 {
        '3'
    } else if n == 4 {
        '4'
    } else if n == 5 {
        '5'
    } else if n == 6 {
        '6'
    } else if n == 7 {
        '7'
    } else if n == 8 {
        '8'
    } else {
        '9'
    }
}

pub open spec fn is_digit(c: char) -> bool {
    c == '0' || c == '1' || c == '2' || c == '3' || c == '4' || c == '5' || c == '6' || c == '7'
        || c == '8' || c == '9'
}

/// The value of a decimal digit character.
pub open spec fn digit_val(c: char) -> nat {
    if c == '0' {
        0
    } else if c == '1' {
        1
    } else if c == '2' {
        2
    } else if c == '3' {
        3
    } else if c == '4' {
        4
    } else if c == '5' {
        5
    } else if c == '6' {
        6
    } else if c == '7' {
        7
    } else if c == '8' {
        8
    } else {
        9
    }
}

/// The lower-case hex digit character for a value below sixteen.
pub open spec fn hex_digit(n: nat) -> char {
    if n < 10 {
        digit_char(n)
    } else if n == 10 {
        'a'
    } else if n == 11 {
        'b'
    } else if n == 12 {
        'c'
    } else if n == 13 {
        'd'
    } else if n == 14 {
        'e'
    } else {
        'f'
    }
}

/// The value of a hex digit character, either case; `None` for any other
/// character.
pub open spec fn hex_val(c: char) -> Option<nat> {
    if is_digit(c) {
        Some(digit_val(c))
    } else if c == 'a' || c == 'A' {
        Some(10)
    } else if c == 'b' || c == 'B' {
        Some(11)
    } else if c == 'c' || c == 'C' {
        Some(12)
    } else if c == 'd' || c == 'D' {
        Some(13)
    } else if c == 'e' || c == 'E' {
        Some(14)
    } else if c == 'f' || c == 'F' {
        Some(15)
    } else {
        None
    }
}

// ===== encoding =====

/// The decimal digits of a number, most significant first.
pub open spec fn dec_digits(n: nat) -> Seq<char>
    decreases n,
{
    if n < 10 {
        seq![digit_char(n)]
    } else {
        dec_digits(n / 10).push(digit_char(n % 10))
    }
}

/// How one character of text is written inside a JSON string.
pub open spec fn esc_char(c: char) -> Seq<char> {
    if c == '"' {
        seq!['\\', '"']
    } else if c == '\\' {
        seq!['\\', '\\']
    } else if c == '\n' {
        seq!['\\', 'n']
    } else if c == '\t' {
        seq!['\\', 't']
    } else if c == '\r' {
        seq!['\\', 'r']
    } else if (c as u32) < 0x20 {
        seq!['\\', 'u', '0', '0', hex_digit((c as u32 / 16) as nat), hex_digit((c as u32 % 16) as nat)]
    } else {
        seq![c]
    }
}

/// The body of a JSON string holding the given text.
pub open spec fn escape(t: Seq<char>) -> Seq<char>
    decreases t.len(),
{
    if t.len() == 0 {
        Seq::empty()
    } else {
        esc_char(t[0]) + escape(t.drop_first())
    }
}

pub open spec fn encode_bool(b: bool) -> Seq<char> {
    if b {
        "true"@
    } else {
        "false"@
    }
}

/// One plain item as a JSON object.
pub open spec fn encode_item(m: ItemModel) -> Seq<char> {
    "{\"id\":"@ + dec_digits(m.id) + ",\"text\":\""@ + escape(m.text) + "\""@ + ",\"completed\":"@
        + encode_bool(m.completed) + "}"@
}

/// The items after the first, each behind a comma, then the closing bracket.
pub open spec fn encode_items_tail(s: Seq<ItemModel>, k: int) -> Seq<char>
    decreases s.len() - k,
{
    if 0 <= k < s.len() {
        ","@ + encode_item(s[k]) + encode_items_tail(s, k + 1)
    } else {
        "]"@
    }
}

/// A collection of plain items as a JSON array.
pub open spec fn encode_items(s: Seq<ItemModel>) -> Seq<char> {
    if s.len() == 0 {
        "[]"@
    } else {
        "["@ + encode_item(s[0]) + encode_items_tail(s, 1)
    }
}

/// One prioritized item as a JSON object.
pub open spec fn encode_todo(m: TodoModel) -> Seq<char> {
    "{\"text\":\""@ + escape(m.text) + "\""@ + ",\"completed\":"@ + encode_bool(m.completed)
        + ",\"priority\":"@ + dec_digits(m.priority) + "}"@
}

pub open spec fn encode_todos_tail(s: Seq<TodoModel>, k: int) -> Seq<char>
    decreases s.len() - k,
{
    if 0 <= k < s.len() {
        ","@ + encode_todo(s[k]) + encode_todos_tail(s, k + 1)
    } else {
        "]"@
    }
}

/// A collection of prioritized items as a JSON array.
pub open spec fn encode_todos(s: Seq<TodoModel>) -> Seq<char> {
    if s.len() == 0 {
        "[]"@
    } else {
        "["@ + encode_todo(s[0]) + encode_todos_tail(s, 1)
    }
}

// ===== building the text =====

/// Relies on `String`'s `FromIterator` over characters: collecting the
/// characters of a vector yields the string of exactly those characters.
#[verifier::external_body]
fn string_from_chars(v: &Vec<char>) -> (r: String)
    ensures
        r@ == v@,
{
    v.iter().collect()
}

fn push_lit(v: &mut Vec<char>, lit: &str)
    ensures
        final(v)@ == old(v)@ + lit@,
{
    let n = lit.unicode_len();
    let mut k: usize = 0;
    while k < n
        invariant
            n == lit@.len(),
            k <= n,
            v@ == old(v)@ + lit@.subrange(0, k as int),
        decreases n - k,
    {
        v.push(lit.get_char(k));
        proof {
            assert(lit@.subrange(0, k as int + 1) =~= lit@.subrange(0, k as int).push(
                lit@[k as int],
            ));
            assert(v@ =~= old(v)@ + lit@.subrange(0, k as int + 1));
        }
        k = k + 1;
    }
    proof {
        assert(lit@.subrange(0, n as int) =~= lit@);
    }
}

fn digit_char_x(n: usize) -> (c: char)
    requires
        n < 10,
    ensures
        c == digit_char(n as nat),
{
    if n == 0 {
        '0'
    } else if n == 1 {
        '1'
    } else if n == 2 {
        '2'
    } else if n == 3 {
        '3'
    } else if n == 4 {
        '4'
    } else if n == 5 {
        '5'
    } else if n == 6 {
        '6'
    } else if n == 7 {
        '7'
    } else if n == 8 {
        '8'
    } else {
        '9'
    }
}

fn hex_digit_x(n: usize) -> (c: char)
    requires
        n < 16,
    ensures
        c == hex_digit(n as nat),
{
    if n < 10 {
        digit_char_x(n)
    } else if n == 10 {
        'a'
    } else if n == 11 {
        'b'
    } else if n == 12 {
        'c'
    } else if n == 13 {
        'd'
    } else if n == 14 {
        'e'
    } else {
        'f'
    }
}

fn push_dec(v: &mut Vec<char>, x: usize)
    ensures
        final(v)@ == old(v)@ + dec_digits(x as nat),
    decreases x,
{
    if x < 10 {
        v.push(digit_char_x(x));
        proof {
            assert(v@ =~= old(v)@ + dec_digits(x as nat));
        }
    } else {
        push_dec(v, x / 10);
        v.push(digit_char_x(x % 10));
        proof {
            assert(v@ =~= old(v)@ + dec_digits(x as nat));
        }
    }
}

/// `escape` distributes over concatenation of texts.
pub proof fn lemma_escape_append(a: Seq<char>, b: Seq<char>)
    ensures
        escape(a + b) == escape(a) + escape(b),
    decreases a.len(),
{
    if a.len() == 0 {
        assert(a + b =~= b);
        assert(escape(a) + escape(b) =~= escape(b));
    } else {
        lemma_escape_append(a.drop_first(), b);
        assert((a + b).drop_first() =~= a.drop_first() + b);
        assert(esc_char((a + b)[0]) + (escape(a.drop_first()) + escape(b)) =~= (esc_char(a[0])
            + escape(a.drop_first())) + escape(b));
    }
}

fn push_escaped(v: &mut Vec<char>, t: &str)
    ensures
        final(v)@ == old(v)@ + escape(t@),
{
    let n = t.unicode_len();
    let mut k: usize = 0;
    while k < n
        invariant
            n == t@.len(),
            k <= n,
            v@ == old(v)@ + escape(t@.subrange(0, k as int)),
        decreases n - k,
    {
        let c = t.get_char(k);
        let code: u32 = c as u32;
        if c == '"' {
            v.push('\\');
            v.push('"');
        } else if c == '\\' {
            v.push('\\');
            v.push('\\');
        } else if c == '\n' {
            v.push('\\');
            v.push('n');
        } else if c == '\t' {
            v.push('\\');
            v.push('t');
        } else if c == '\r' {
            v.push('\\');
            v.push('r');
        } else if code < 0x20 {
            v.push('\\');
            v.push('u');
            v.push('0');
            v.push('0');
            v.push(hex_digit_x((code / 16) as usize));
            v.push(hex_digit_x((code % 16) as usize));
        } else {
            v.push(c);
        }
        proof {
            let pre = t@.subrange(0, k as int);
            lemma_escape_append(pre, seq![c]);
            assert(pre + seq![c] =~= t@.subrange(0, k as int + 1));
            assert(seq![c].drop_first() =~= Seq::<char>::empty());
            assert(escape(Seq::<char>::empty()) == Seq::<char>::empty());
            assert(escape(seq![c]) =~= esc_char(c));
            assert(v@ =~= old(v)@ + escape(t@.subrange(0, k as int + 1)));
        }
        k = k + 1;
    }
    proof {
        assert(t@.subrange(0, n as int) =~= t@);
    }
}

fn push_bool(v: &mut Vec<char>, b: bool)
    ensures
        final(v)@ == old(v)@ + encode_bool(b),
{
    if b {
        push_lit(v, "true");
    } else {
        push_lit(v, "false");
    }
}

fn push_item(v: &mut Vec<char>, it: &Item)
    ensures
        final(v)@ == old(v)@ + encode_item(it@),
{
    push_lit(v, "{\"id\":");
    push_dec(v, it.id);
    push_lit(v, ",\"text\":\"");
    push_escaped(v, it.text.as_str());
    push_lit(v, "\"");
    push_lit(v, ",\"completed\":");
    push_bool(v, it.completed);
    push_lit(v, "}");
    proof {
        assert(v@ =~= old(v)@ + encode_item(it@));
    }
}

fn push_todo(v: &mut Vec<char>, it: &TodoItem)
    ensures
        final(v)@ == old(v)@ + encode_todo(it@),
{
    push_lit(v, "{\"text\":\"");
    push_escaped(v, it.text.as_str());
    push_lit(v, "\"");
    push_lit(v, ",\"completed\":");
    push_bool(v, it.completed);
    push_lit(v, ",\"priority\":");
    push_dec(v, it.priority);
    push_lit(v, "}");
    proof {
        assert(v@ =~= old(v)@ + encode_todo(it@));
    }
}

/// Writes a collection of plain items in the storage format.
pub fn items_to_json(items: &Vec<Item>) -> (r: String)
    ensures
        r@ == encode_items(items@.map_values(|it: Item| it@)),
{
    let ghost models = items@.map_values(|it: Item| it@);
    let mut v: Vec<char> = Vec::new();
    if items.len() == 0 {
        push_lit(&mut v, "[]");
        proof {
            assert(v@ =~= encode_items(models));
        }
    } else {
        push_lit(&mut v, "[");
        push_item(&mut v, &items[0]);
        proof {
            assert(encode_items(models) =~= ("["@ + encode_item(models[0]))
                + encode_items_tail(models, 1));
            assert(v@ =~= "["@ + encode_item(models[0]));
        }
        let mut k: usize = 1;
        while k < items.len()
            invariant
                1 <= k <= items.len(),
                models == items@.map_values(|it: Item| it@),
                encode_items(models) == v@ + encode_items_tail(models, k as int),
            decreases items.len() - k,
        {
            push_lit(&mut v, ",");
            push_item(&mut v, &items[k]);
            proof {
                assert(encode_items_tail(models, k as int) =~= (","@ + encode_item(models[k as int]))
                    + encode_items_tail(models, k as int + 1));
                assert(encode_items(models) =~= v@ + encode_items_tail(models, k as int + 1));
            }
            k = k + 1;
        }
        push_lit(&mut v, "]");
        proof {
            assert(encode_items_tail(models, items@.len() as int) == "]"@);
            assert(v@ =~= encode_items(models));
        }
    }
    string_from_chars(&v)
}

/// Writes a collection of prioritized items in the storage format.
pub fn todos_to_json(items: &Vec<TodoItem>) -> (r: String)
    ensures
        r@ == encode_todos(items@.map_values(|it: TodoItem| it@)),
{
    let ghost models = items@.map_values(|it: TodoItem| it@);
    let mut v: Vec<char> = Vec::new();
    if items.len() == 0 {
        push_lit(&mut v, "[]");
        proof {
            assert(v@ =~= encode_todos(models));
        }
    } else {
        push_lit(&mut v, "[");
        push_todo(&mut v, &items[0]);
        proof {
            assert(encode_todos(models) =~= ("["@ + encode_todo(models[0]))
                + encode_todos_tail(models, 1));
            assert(v@ =~= "["@ + encode_todo(models[0]));
        }
        let mut k: usize = 1;
        while k < items.len()
            invariant
                1 <= k <= items.len(),
                models == items@.map_values(|it: TodoItem| it@),
                encode_todos(models) == v@ + encode_todos_tail(models, k as int),
            decreases items.len() - k,
        {
            push_lit(&mut v, ",");
            push_todo(&mut v, &items[k]);
            proof {
                assert(encode_todos_tail(models, k as int) =~= (","@ + encode_todo(models[k as int]))
                    + encode_todos_tail(models, k as int + 1));
                assert(encode_todos(models) =~= v@ + encode_todos_tail(models, k as int + 1));
            }
            k = k + 1;
        }
        push_lit(&mut v, "]");
        proof {
            assert(encode_todos_tail(models, items@.len() as int) == "]"@);
            assert(v@ =~= encode_todos(models));
        }
    }
    string_from_chars(&v)
}

// ===== reading: specification =====

/// The characters of `w` stand in `s` at position `i`.
pub open spec fn occurs_at(s: Seq<char>, i: int, w: Seq<char>) -> bool {
    0 <= i && i + w.len() <= s.len() && forall|k: int|
        0 <= k < w.len() ==> s[i + k] == #[trigger] w[k]
}

/// The position just past `w` when it stands at `i`, `None` otherwise.
pub open spec fn expect(s: Seq<char>, i: int, w: Seq<char>) -> Option<int> {
    if occurs_at(s, i, w) {
        Some(i + w.len())
    } else {
        None
    }
}

/// Reads a run of decimal digits from position `i` onto an already
/// accumulated value; yields the value and the position after the run.
pub open spec fn scan_num(s: Seq<char>, i: int, acc: nat) -> (nat, int)
    decreases s.len() - i,
{
    if 0 <= i < s.len() && is_digit(s[i]) {
        scan_num(s, i + 1, acc * 10 + digit_val(s[i]))
    } else {
        (acc, i)
    }
}

/// Reads four hex digits at `i` as one character; `None` when a digit is
/// missing or the value is not a Unicode scalar.
pub open spec fn scan_hex4(s: Seq<char>, i: int) -> Option<(char, int)> {
    if 0 <= i && i + 4 <= s.len() && hex_val(s[i]).is_some() && hex_val(s[i + 1]).is_some()
        && hex_val(s[i + 2]).is_some() && hex_val(s[i + 3]).is_some() {
        let v = ((hex_val(s[i]).unwrap() * 16 + hex_val(s[i + 1]).unwrap()) * 16 + hex_val(
            s[i + 2],
        ).unwrap()) * 16 + hex_val(s[i + 3]).unwrap();
        if vstd::utf8::is_scalar(v as u32) {
            Some(((v as u32) as char, i + 4))
        } else {
            None
        }
    } else {
        None
    }
}

/// Puts one decoded character in front of the rest of a string body.
pub open spec fn cons_char(c: char, rest: Option<(Seq<char>, int)>) -> Option<(Seq<char>, int)> {
    match rest {
        Some((t, j)) => Some((seq![c] + t, j)),
        None => None,
    }
}

/// Reads a JSON string body from `i` (just after the opening quote) up to and
/// including the closing quote; yields the text and the position after the
/// quote. Unescaped control characters, stray backslashes and lone surrogate
/// escapes are refused.
pub open spec fn scan_string(s: Seq<char>, i: int) -> Option<(Seq<char>, int)>
    decreases s.len() - i,
{
    if i < 0 || i >= s.len() {
        None
    } else if s[i] == '"' {
        Some((Seq::empty(), i + 1))
    } else if s[i] == '\\' {
        if i + 1 < s.len() {
            let e = s[i + 1];
            if e == '"' || e == '\\' || e == '/' {
                cons_char(e, scan_string(s, i + 2))
            } else if e == 'n' {
                cons_char('\n', scan_string(s, i + 2))
            } else if e == 't' {
                cons_char('\t', scan_string(s, i + 2))
            } else if e == 'r' {
                cons_char('\r', scan_string(s, i + 2))
            } else if e == 'b' {
                cons_char('\u{8}', scan_string(s, i + 2))
            } else if e == 'f' {
                cons_char('\u{c}', scan_string(s, i + 2))
            } else if e == 'u' {
                match scan_hex4(s, i + 2) {
                    Some((c, j)) => if i + 2 <= j <= s.len() {
                        cons_char(c, scan_string(s, j))
                    } else {
                        None
                    },
                    None => None,
                }
            } else {
                None
            }
        } else {
            None
        }
    } else if (s[i] as u32) < 0x20 {
        None
    } else {
        cons_char(s[i], scan_string(s, i + 1))
    }
}

/// Reads `true` or `false`.
pub open spec fn scan_bool(s: Seq<char>, i: int) -> Option<(bool, int)> {
    match expect(s, i, "true"@) {
        Some(j) => Some((true, j)),
        None => match expect(s, i, "false"@) {
            Some(j) => Some((false, j)),
            None => None,
        },
    }
}

/// Reads one plain-item object starting at `i`.
pub open spec fn scan_item(s: Seq<char>, i: int) -> Option<(ItemModel, int)> {
    match expect(s, i, "{\"id\":"@) {
        Some(j) => if j < s.len() && is_digit(s[j]) {
            let (id, k) = scan_num(s, j, 0);
            match expect(s, k, ",\"text\":\""@) {
                Some(l) => match scan_string(s, l) {
                    Some((text, m)) => match expect(s, m, ",\"completed\":"@) {
                        Some(p) => match scan_bool(s, p) {
                            Some((completed, q)) => match expect(s, q, "}"@) {
                                Some(r) => Some((ItemModel { id, text, completed }, r)),
                                None => None,
                            },
                            None => None,
                        },
                        None => None,
                    },
                    None => None,
                },
                None => None,
            }
        } else {
            None
        },
        None => None,
    }
}

/// Reads the items after the first: either the closing bracket, or a comma
/// and an item, repeated.
pub open spec fn scan_items_tail(s: Seq<char>, i: int) -> Option<(Seq<ItemModel>, int)>
    decreases s.len() - i,
{
    if 0 <= i < s.len() && s[i] == ']' {
        Some((Seq::empty(), i + 1))
    } else if 0 <= i < s.len() && s[i] == ',' {
        match scan_item(s, i + 1) {
            Some((m, j)) => if i + 1 < j <= s.len() {
                match scan_items_tail(s, j) {
                    Some((ms, k)) => Some((seq![m] + ms, k)),
                    None => None,
                }
            } else {
                None
            },
            None => None,
        }
    } else {
        None
    }
}

/// Reads a whole collection of plain items; the text must hold exactly one
/// array, nothing before or after it.
pub open spec fn scan_items(s: Seq<char>) -> Option<Seq<ItemModel>> {
    if s.len() >= 1 && s[0] == '[' {
        if s.len() == 2 && s[1] == ']' {
            Some(Seq::empty())
        } else {
            match scan_item(s, 1) {
                Some((m, j)) => if 1 < j <= s.len() {
                    match scan_items_tail(s, j) {
                        Some((ms, k)) => if k == s.len() {
                            Some(seq![m] + ms)
                        } else {
                            None
                        },
                        None => None,
                    }
                } else {
                    None
                },
                None => None,
            }
        }
    } else {
        None
    }
}

/// Reads one prioritized-item object starting at `i`.
pub open spec fn scan_todo(s: Seq<char>, i: int) -> Option<(TodoModel, int)> {
    match expect(s, i, "{\"text\":\""@) {
        Some(j) => match scan_string(s, j) {
            Some((text, m)) => match expect(s, m, ",\"completed\":"@) {
                Some(p) => match scan_bool(s, p) {
                    Some((completed, q)) => match expect(s, q, ",\"priority\":"@) {
                        Some(w) => if w < s.len() && is_digit(s[w]) {
                            let (priority, x) = scan_num(s, w, 0);
                            match expect(s, x, "}"@) {
                                Some(r) => Some((TodoModel { text, completed, priority }, r)),
                                None => None,
                            }
                        } else {
                            None
                        },
                        None => None,
                    },
                    None => None,
                },
                None => None,
            },
            None => None,
        },
        None => None,
    }
}

pub open spec fn scan_todos_tail(s: Seq<char>, i: int) -> Option<(Seq<TodoModel>, int)>
    decreases s.len() - i,
{
    if 0 <= i < s.len() && s[i] == ']' {
        Some((Seq::empty(), i + 1))
    } else if 0 <= i < s.len() && s[i] == ',' {
        match scan_todo(s, i + 1) {
            Some((m, j)) => if i + 1 < j <= s.len() {
                match scan_todos_tail(s, j) {
                    Some((ms, k)) => Some((seq![m] + ms, k)),
                    None => None,
                }
            } else {
                None
            },
            None => None,
        }
    } else {
        None
    }
}

/// Reads a whole collection of prioritized items.
pub open spec fn scan_todos(s: Seq<char>) -> Option<Seq<TodoModel>> {
    if s.len() >= 1 && s[0] == '[' {
        if s.len() == 2 && s[1] == ']' {
            Some(Seq::empty())
        } else {
            match scan_todo(s, 1) {
                Some((m, j)) => if 1 < j <= s.len() {
                    match scan_todos_tail(s, j) {
                        Some((ms, k)) => if k == s.len() {
                            Some(seq![m] + ms)
                        } else {
                            None
                        },
                        None => None,
                    }
                } else {
                    None
                },
                None => None,
            }
        }
    } else {
        None
    }
}

/// Every id fits in `usize`.
pub open spec fn ids_fit(ms: Seq<ItemModel>) -> bool {
    forall|k: int| 0 <= k < ms.len() ==> (#[trigger] ms[k]).id <= usize::MAX
}

/// Every priority fits in `usize`.
pub open spec fn prios_fit(ms: Seq<TodoModel>) -> bool {
    forall|k: int| 0 <= k < ms.len() ==> (#[trigger] ms[k]).priority <= usize::MAX
}

// ===== reading: executable =====

/// Relies on `char::from_u32`: yields the character of a Unicode scalar
/// value, and `None` exactly for surrogates and values beyond the character
/// range.
#[verifier::external_body]
fn char_from_u32(v: u32) -> (r: Option<char>)
    ensures
        r == (if vstd::utf8::is_scalar(v) {
            Some(v as char)
        } else {
            None::<char>
        }),
{
    char::from_u32(v)
}

fn digit_of(c: char) -> (r: Option<usize>)
    ensures
        r matches Some(d) ==> is_digit(c) && d as nat == digit_val(c) && d < 10,
        r is None ==> !is_digit(c),
{
    if c == '0' {
        Some(0)
    } else if c == '1' {
        Some(1)
    } else if c == '2' {
        Some(2)
    } else if c == '3' {
        Some(3)
    } else if c == '4' {
        Some(4)
    } else if c == '5' {
        Some(5)
    } else if c == '6' {
        Some(6)
    } else if c == '7' {
        Some(7)
    } else if c == '8' {
        Some(8)
    } else if c == '9' {
        Some(9)
    } else {
        None
    }
}

fn hex_of(c: char) -> (r: Option<usize>)
    ensures
        r matches Some(h) ==> hex_val(c) == Some(h as nat) && h < 16,
        r is None ==> hex_val(c) is None,
{
    match digit_of(c) {
        Some(d) => Some(d),
        None => {
            if c == 'a' || c == 'A' {
                Some(10)
            } else if c == 'b' || c == 'B' {
                Some(11)
            } else if c == 'c' || c == 'C' {
                Some(12)
            } else if c == 'd' || c == 'D' {
                Some(13)
            } else if c == 'e' || c == 'E' {
                Some(14)
            } else if c == 'f' || c == 'F' {
                Some(15)
            } else {
                None
            }
        },
    }
}

fn read_lit(s: &str, n: usize, i: usize, lit: &str) -> (r: Option<usize>)
    requires
        n == s@.len(),
        i <= n,
    ensures
        r matches Some(j) ==> expect(s@, i as int, lit@) == Some(j as int) && i <= j <= n,
        r is None ==> expect(s@, i as int, lit@) is None,
{
    let m = lit.unicode_len();
    if m > n - i {
        proof {
            assert(!occurs_at(s@, i as int, lit@));
        }
        return None;
    }
    let mut k: usize = 0;
    while k < m
        invariant
            n == s@.len(),
            i + m <= n,
            m == lit@.len(),
            k <= m,
            forall|j: int| 0 <= j < k ==> s@[i + j] == #[trigger] lit@[j],
        decreases m - k,
    {
        if s.get_char(i + k) != lit.get_char(k) {
            proof {
                assert(s@[i as int + k as int] != lit@[k as int]);
                assert(!occurs_at(s@, i as int, lit@));
            }
            return None;
        }
        k = k + 1;
    }
    proof {
        assert(occurs_at(s@, i as int, lit@));
    }
    Some(i + m)
}

fn read_num(s: &str, n: usize, i: usize, acc: Option<usize>, Ghost(g): Ghost<nat>) -> (r: (
    Option<usize>,
    usize,
))
    requires
        n == s@.len(),
        i <= n,
        match acc {
            Some(u) => u as nat == g,
            None => g > usize::MAX,
        },
    ensures
        ({
            let (v, j) = scan_num(s@, i as int, g);
            &&& r.1 as int == j
            &&& i <= r.1 <= n
            &&& match r.0 {
                Some(u) => u as nat == v,
                None => v > usize::MAX,
            }
        }),
    decreases n - i,
{
    if i < n {
        let c = s.get_char(i);
        match digit_of(c) {
            Some(d) => {
                let acc2 = match acc {
                    Some(u) => match u.checked_mul(10) {
                        Some(x) => x.checked_add(d),
                        None => None,
                    },
                    None => None,
                };
                proof {
                    if acc is None {
                        assert(g * 10 + digit_val(c) >= g * 10);
                        assert(g * 10 >= g);
                    }
                }
                read_num(s, n, i + 1, acc2, Ghost(g * 10 + digit_val(c)))
            },
            None => (acc, i),
        }
    } else {
        (acc, i)
    }
}

fn read_string(s: &str, n: usize, i: usize) -> (r: Option<(Vec<char>, usize)>)
    requires
        n == s@.len(),
        i <= n,
    ensures
        (match scan_string(s@, i as int) {
            Some((t, j)) => r matches Some(p) && p.0@ == t && p.1 as int == j && i <= p.1 <= n,
            None => r is None,
        }),
    decreases n - i,
{
    if i >= n {
        return None;
    }
    let c = s.get_char(i);
    if c == '"' {
        let v: Vec<char> = Vec::new();
        proof {
            assert(v@ =~= Seq::<char>::empty());
        }
        return Some((v, i + 1));
    }
    if c == '\\' {
        if i + 1 >= n {
            return None;
        }
        let e = s.get_char(i + 1);
        let dc: char;
        let next: usize;
        if e == '"' || e == '\\' || e == '/' {
            dc = e;
            next = i + 2;
        } else if e == 'n' {
            dc = '\n';
            next = i + 2;
        } else if e == 't' {
            dc = '\t';
            next = i + 2;
        } else if e == 'r' {
            dc = '\r';
            next = i + 2;
        } else if e == 'b' {
            dc = '\u{8}';
            next = i + 2;
        } else if e == 'f' {
            dc = '\u{c}';
            next = i + 2;
        } else if e == 'u' {
            if n - (i + 2) < 4 {
                return None;
            }
            let h0 = match hex_of(s.get_char(i + 2)) {
                Some(h) => h,
                None => {
                    return None;
                },
            };
            let h1 = match hex_of(s.get_char(i + 3)) {
                Some(h) => h,
                None => {
                    return None;
                },
            };
            let h2 = match hex_of(s.get_char(i + 4)) {
                Some(h) => h,
                None => {
                    return None;
                },
            };
            let h3 = match hex_of(s.get_char(i + 5)) {
                Some(h) => h,
                None => {
                    return None;
                },
            };
            let v: usize = ((h0 * 16 + h1) * 16 + h2) * 16 + h3;
            match char_from_u32(v as u32) {
                Some(ch) => {
                    dc = ch;
                    next = i + 6;
                },
                None => {
                    return None;
                },
            }
        } else {
            return None;
        }
        match read_string(s, n, next) {
            Some((mut v, j)) => {
                v.insert(0, dc);
                proof {
                    let rest = scan_string(s@, next as int);
                    assert(v@ =~= seq![dc] + rest.unwrap().0);
                }
                Some((v, j))
            },
            None => None,
        }
    } else {
        let code: u32 = c as u32;
        if code < 0x20 {
            return None;
        }
        match read_string(s, n, i + 1) {
            Some((mut v, j)) => {
                v.insert(0, c);
                proof {
                    let rest = scan_string(s@, i as int + 1);
                    assert(v@ =~= seq![c] + rest.unwrap().0);
                }
                Some((v, j))
            },
            None => None,
        }
    }
}

fn read_bool(s: &str, n: usize, i: usize) -> (r: Option<(bool, usize)>)
    requires
        n == s@.len(),
        i <= n,
    ensures
        (match scan_bool(s@, i as int) {
            Some((b, j)) => r matches Some(p) && p.0 == b && p.1 as int == j && i <= p.1 <= n,
            None => r is None,
        }),
{
    match read_lit(s, n, i, "true") {
        Some(j) => Some((true, j)),
        None => match read_lit(s, n, i, "false") {
            Some(j) => Some((false, j)),
            None => None,
        },
    }
}

/// One plain item as read from text: the id is `None` when the stored number
/// does not fit in `usize`.
struct RawItem {
    id: Option<usize>,
    text: Vec<char>,
    completed: bool,
}

fn read_item(s: &str, n: usize, i: usize) -> (r: Option<(RawItem, usize)>)
    requires
        n == s@.len(),
        i <= n,
    ensures
        (match scan_item(s@, i as int) {
            Some((m, j)) => r matches Some(p) && p.1 as int == j && i <= p.1 <= n && p.0.text@
                == m.text && p.0.completed == m.completed && (match p.0.id {
                Some(u) => u as nat == m.id,
                None => m.id > usize::MAX,
            }),
            None => r is None,
        }),
{
    let j = match read_lit(s, n, i, "{\"id\":") {
        Some(j) => j,
        None => {
            return None;
        },
    };
    if j >= n {
        return None;
    }
    let c0 = s.get_char(j);
    match digit_of(c0) {
        Some(_) => (),
        None => {
            return None;
        },
    }
    let (idopt, k) = read_num(s, n, j, Some(0), Ghost(0nat));
    let l = match read_lit(s, n, k, ",\"text\":\"") {
        Some(l) => l,
        None => {
            return None;
        },
    };
    let (text, m2) = match read_string(s, n, l) {
        Some(p) => p,
        None => {
            return None;
        },
    };
    let p2 = match read_lit(s, n, m2, ",\"completed\":") {
        Some(p) => p,
        None => {
            return None;
        },
    };
    let (completed, q) = match read_bool(s, n, p2) {
        Some(p) => p,
        None => {
            return None;
        },
    };
    let rr = match read_lit(s, n, q, "}") {
        Some(rr) => rr,
        None => {
            return None;
        },
    };
    Some((RawItem { id: idopt, text, completed }, rr))
}

fn read_items_tail(s: &str, n: usize, i: usize) -> (r: Option<(Vec<Item>, bool, usize)>)
    requires
        n == s@.len(),
        i <= n,
    ensures
        (match scan_items_tail(s@, i as int) {
            Some((ms, j)) => r matches Some(tr) && tr.2 as int == j && i <= tr.2 <= n && tr.1
                == !ids_fit(ms) && (ids_fit(ms) ==> tr.0@.map_values(|it: Item| it@) == ms),
            None => r is None,
        }),
    decreases n - i,
{
    if i >= n {
        return None;
    }
    let c = s.get_char(i);
    if c == ']' {
        let v: Vec<Item> = Vec::new();
        proof {
            assert(v@.map_values(|it: Item| it@) =~= Seq::<ItemModel>::empty());
        }
        return Some((v, false, i + 1));
    }
    if c != ',' {
        return None;
    }
    let (raw, j) = match read_item(s, n, i + 1) {
        Some(p) => p,
        None => {
            return None;
        },
    };
    if !(i + 1 < j && j <= n) {
        return None;
    }
    match read_items_tail(s, n, j) {
        Some((mut v, bad, k)) => {
            let ghost m = scan_item(s@, i as int + 1).unwrap().0;
            let ghost ms = scan_items_tail(s@, j as int).unwrap().0;
            let item_bad = raw.id.is_none();
            let id_val = match raw.id {
                Some(u) => u,
                None => 0,
            };
            let item = Item { id: id_val, text: string_from_chars(&raw.text), completed: raw.completed };
            v.insert(0, item);
            proof {
                let full = seq![m] + ms;
                assert(full[0] == m);
                assert(forall|t: int| 0 <= t < ms.len() ==> full[t + 1] == ms[t]);
                if !item_bad && !bad {
                    assert forall|t: int| 0 <= t < full.len() implies (#[trigger] full[t]).id
                        <= usize::MAX by {
                        if t > 0 {
                            assert(full[t] == ms[t - 1]);
                        }
                    }
                    assert(item@ == m);
                    assert(v@.map_values(|it: Item| it@) =~= full);
                } else {
                    if item_bad {
                        assert(full[0].id > usize::MAX);
                        assert(!ids_fit(full));
                    } else {
                        let t = choose|t: int| 0 <= t < ms.len() && (#[trigger] ms[t]).id > usize::MAX;
                        assert(full[t + 1].id > usize::MAX);
                        assert(!ids_fit(full));
                    }
                }
            }
            Some((v, item_bad || bad, k))
        },
        None => None,
    }
}

/// Reads a collection of plain items from the storage format. Text that is
/// not in the format yields `MalformedJson`; a well-formed collection with an
/// id beyond `usize` yields `NumberTooLarge`; ids need not be distinct here.
pub fn items_from_json(s: &str) -> (r: Result<Vec<Item>, StoreError>)
    ensures
        (match scan_items(s@) {
            Some(ms) => {
                if ids_fit(ms) {
                    r matches Ok(v) && v@.map_values(|it: Item| it@) == ms
                } else {
                    r matches Err(e) && e == StoreError::NumberTooLarge
                }
            },
            None => r matches Err(e) && e == StoreError::MalformedJson,
        }),
{
    let n = s.unicode_len();
    if n < 1 {
        return Err(StoreError::MalformedJson);
    }
    if s.get_char(0) != '[' {
        return Err(StoreError::MalformedJson);
    }
    if n == 2 && s.get_char(1) == ']' {
        let v: Vec<Item> = Vec::new();
        proof {
            assert(v@.map_values(|it: Item| it@) =~= Seq::<ItemModel>::empty());
        }
        return Ok(v);
    }
    let (raw, j) = match read_item(s, n, 1) {
        Some(p) => p,
        None => {
            return Err(StoreError::MalformedJson);
        },
    };
    if !(1 < j && j <= n) {
        return Err(StoreError::MalformedJson);
    }
    match read_items_tail(s, n, j) {
        Some((mut v, bad, k)) => {
            if k != n {
                return Err(StoreError::MalformedJson);
            }
            let ghost m = scan_item(s@, 1).unwrap().0;
            let ghost ms = scan_items_tail(s@, j as int).unwrap().0;
            let ghost full = seq![m] + ms;
            proof {
                assert(full[0] == m);
                assert(forall|t: int| 0 <= t < ms.len() ==> full[t + 1] == ms[t]);
            }
            let item_bad = raw.id.is_none();
            if item_bad || bad {
                proof {
                    if item_bad {
                        assert(full[0].id > usize::MAX);
                    } else {
                        let t = choose|t: int| 0 <= t < ms.len() && (#[trigger] ms[t]).id > usize::MAX;
                        assert(full[t + 1].id > usize::MAX);
                    }
                    assert(!ids_fit(full));
                }
                return Err(StoreError::NumberTooLarge);
            }
            let id_val = match raw.id {
                Some(u) => u,
                None => 0,
            };
            let item = Item { id: id_val, text: string_from_chars(&raw.text), completed: raw.completed };
            v.insert(0, item);
            proof {
                assert forall|t: int| 0 <= t < full.len() implies (#[trigger] full[t]).id
                    <= usize::MAX by {
                    if t > 0 {
                        assert(full[t] == ms[t - 1]);
                    }
                }
                assert(item@ == m);
                assert(v@.map_values(|it: Item| it@) =~= full);
            }
            Ok(v)
        },
        None => Err(StoreError::MalformedJson),
    }
}

/// One prioritized item as read from text: the priority is `None` when the
/// stored number does not fit in `usize`.
struct RawTodo {
    text: Vec<char>,
    completed: bool,
    priority: Option<usize>,
}

fn read_todo(s: &str, n: usize, i: usize) -> (r: Option<(RawTodo, usize)>)
    requires
        n == s@.len(),
        i <= n,
    ensures
        (match scan_todo(s@, i as int) {
            Some((m, j)) => r matches Some(p) && p.1 as int == j && i <= p.1 <= n && p.0.text@
                == m.text && p.0.completed == m.completed && (match p.0.priority {
                Some(u) => u as nat == m.priority,
                None => m.priority > usize::MAX,
            }),
            None => r is None,
        }),
{
    let j = match read_lit(s, n, i, "{\"text\":\"") {
        Some(j) => j,
        None => {
            return None;
        },
    };
    let (text, m2) = match read_string(s, n, j) {
        Some(p) => p,
        None => {
            return None;
        },
    };
    let p2 = match read_lit(s, n, m2, ",\"completed\":") {
        Some(p) => p,
        None => {
            return None;
        },
    };
    let (completed, q) = match read_bool(s, n, p2) {
        Some(p) => p,
        None => {
            return None;
        },
    };
    let w = match read_lit(s, n, q, ",\"priority\":") {
        Some(w) => w,
        None => {
            return None;
        },
    };
    if w >= n {
        return None;
    }
    let c0 = s.get_char(w);
    match digit_of(c0) {
        Some(_) => (),
        None => {
            return None;
        },
    }
    let (priopt, x) = read_num(s, n, w, Some(0), Ghost(0nat));
    let rr = match read_lit(s, n, x, "}") {
        Some(rr) => rr,
        None => {
            return None;
        },
    };
    Some((RawTodo { text, completed, priority: priopt }, rr))
}

fn read_todos_tail(s: &str, n: usize, i: usize) -> (r: Option<(Vec<TodoItem>, bool, usize)>)
    requires
        n == s@.len(),
        i <= n,
    ensures
        (match scan_todos_tail(s@, i as int) {
            Some((ms, j)) => r matches Some(tr) && tr.2 as int == j && i <= tr.2 <= n && tr.1
                == !prios_fit(ms) && (prios_fit(ms) ==> tr.0@.map_values(|it: TodoItem| it@) == ms),
            None => r is None,
        }),
    decreases n - i,
{
    if i >= n {
        return None;
    }
    let c = s.get_char(i);
    if c == ']' {
        let v: Vec<TodoItem> = Vec::new();
        proof {
            assert(v@.map_values(|it: TodoItem| it@) =~= Seq::<TodoModel>::empty());
        }
        return Some((v, false, i + 1));
    }
    if c != ',' {
        return None;
    }
    let (raw, j) = match read_todo(s, n, i + 1) {
        Some(p) => p,
        None => {
            return None;
        },
    };
    if !(i + 1 < j && j <= n) {
        return None;
    }
    match read_todos_tail(s, n, j) {
        Some((mut v, bad, k)) => {
            let ghost m = scan_todo(s@, i as int + 1).unwrap().0;
            let ghost ms = scan_todos_tail(s@, j as int).unwrap().0;
            let item_bad = raw.priority.is_none();
            let pri_val = match raw.priority {
                Some(u) => u,
                None => 0,
            };
            let item = TodoItem {
                text: string_from_chars(&raw.text),
                completed: raw.completed,
                priority: pri_val,
            };
            v.insert(0, item);
            proof {
                let full = seq![m] + ms;
                assert(full[0] == m);
                assert(forall|t: int| 0 <= t < ms.len() ==> full[t + 1] == ms[t]);
                if !item_bad && !bad {
                    assert forall|t: int| 0 <= t < full.len() implies (#[trigger] full[t]).priority
                        <= usize::MAX by {
                        if t > 0 {
                            assert(full[t] == ms[t - 1]);
                        }
                    }
                    assert(item@ == m);
                    assert(v@.map_values(|it: TodoItem| it@) =~= full);
                } else {
                    if item_bad {
                        assert(full[0].priority > usize::MAX);
                        assert(!prios_fit(full));
                    } else {
                        let t = choose|t: int|
                            0 <= t < ms.len() && (#[trigger] ms[t]).priority > usize::MAX;
                        assert(full[t + 1].priority > usize::MAX);
                        assert(!prios_fit(full));
                    }
                }
            }
            Some((v, item_bad || bad, k))
        },
        None => None,
    }
}

/// Reads a collection of prioritized items from the storage format.
pub fn todos_from_json(s: &str) -> (r: Result<Vec<TodoItem>, StoreError>)
    ensures
        (match scan_todos(s@) {
            Some(ms) => {
                if prios_fit(ms) {
                    r matches Ok(v) && v@.map_values(|it: TodoItem| it@) == ms
                } else {
                    r matches Err(e) && e == StoreError::NumberTooLarge
                }
            },
            None => r matches Err(e) && e == StoreError::MalformedJson,
        }),
{
    let n = s.unicode_len();
    if n < 1 {
        return Err(StoreError::MalformedJson);
    }
    if s.get_char(0) != '[' {
        return Err(StoreError::MalformedJson);
    }
    if n == 2 && s.get_char(1) == ']' {
        let v: Vec<TodoItem> = Vec::new();
        proof {
            assert(v@.map_values(|it: TodoItem| it@) =~= Seq::<TodoModel>::empty());
        }
        return Ok(v);
    }
    let (raw, j) = match read_todo(s, n, 1) {
        Some(p) => p,
        None => {
            return Err(StoreError::MalformedJson);
        },
    };
    if !(1 < j && j <= n) {
        return Err(StoreError::MalformedJson);
    }
    match read_todos_tail(s, n, j) {
        Some((mut v, bad, k)) => {
            if k != n {
                return Err(StoreError::MalformedJson);
            }
            let ghost m = scan_todo(s@, 1).unwrap().0;
            let ghost ms = scan_todos_tail(s@, j as int).unwrap().0;
            let ghost full = seq![m] + ms;
            proof {
                assert(full[0] == m);
                assert(forall|t: int| 0 <= t < ms.len() ==> full[t + 1] == ms[t]);
            }
            let item_bad = raw.priority.is_none();
            if item_bad || bad {
                proof {
                    if item_bad {
                        assert(full[0].priority > usize::MAX);
                    } else {
                        let t = choose|t: int|
                            0 <= t < ms.len() && (#[trigger] ms[t]).priority > usize::MAX;
                        assert(full[t + 1].priority > usize::MAX);
                    }
                    assert(!prios_fit(full));
                }
                return Err(StoreError::NumberTooLarge);
            }
            let pri_val = match raw.priority {
                Some(u) => u,
                None => 0,
            };
            let item = TodoItem {
                text: string_from_chars(&raw.text),
                completed: raw.completed,
                priority: pri_val,
            };
            v.insert(0, item);
            proof {
                assert forall|t: int| 0 <= t < full.len() implies (#[trigger] full[t]).priority
                    <= usize::MAX by {
                    if t > 0 {
                        assert(full[t] == ms[t - 1]);
                    }
                }
                assert(item@ == m);
                assert(v@.map_values(|it: TodoItem| it@) =~= full);
            }
            Ok(v)
        },
        None => Err(StoreError::MalformedJson),
    }
}

// ===== round trip: reading back what was written =====

pub open spec fn pow10(k: nat) -> nat
    decreases k,
{
    if k == 0 {
        1
    } else {
        10 * pow10((k - 1) as nat)
    }
}

proof fn lemma_occurs_split(s: Seq<char>, i: int, a: Seq<char>, b: Seq<char>)
    requires
        occurs_at(s, i, a + b),
    ensures
        occurs_at(s, i, a),
        occurs_at(s, i + a.len(), b),
{
    assert forall|k: int| 0 <= k < a.len() implies s[i + k] == #[trigger] a[k] by {
        assert((a + b)[k] == a[k]);
    }
    assert forall|k: int| 0 <= k < b.len() implies s[i + a.len() + k] == #[trigger] b[k] by {
        assert((a + b)[a.len() + k] == b[k]);
    }
}

proof fn lemma_occurs_join(s: Seq<char>, i: int, a: Seq<char>, b: Seq<char>)
    requires
        occurs_at(s, i, a),
        occurs_at(s, i + a.len(), b),
    ensures
        occurs_at(s, i, a + b),
{
    assert forall|k: int| 0 <= k < (a + b).len() implies s[i + k] == #[trigger] (a + b)[k] by {
        if k < a.len() {
            assert(a[k] == s[i + k]);
        } else {
            assert(b[k - a.len()] == s[i + a.len() + (k - a.len())]);
        }
    }
}

/// The decimal digits of a number are digit characters, and there is at
/// least one of them.
proof fn lemma_dec_digits_digits(n: nat)
    ensures
        dec_digits(n).len() >= 1,
        forall|k: int| 0 <= k < dec_digits(n).len() ==> is_digit(#[trigger] dec_digits(n)[k]),
    decreases n,
{
    if n >= 10 {
        lemma_dec_digits_digits(n / 10);
        assert forall|k: int|
            0 <= k < dec_digits(n).len() implies is_digit(#[trigger] dec_digits(n)[k]) by {
            if k < dec_digits(n).len() - 1 {
                assert(dec_digits(n)[k] == dec_digits(n / 10)[k]);
            }
        }
    }
}

/// Reading a run of digits that spells `n` extends the accumulated value by
/// `n` in its decimal positions and moves past the run.
proof fn lemma_scan_num_digits(s: Seq<char>, i: int, acc: nat, n: nat)
    requires
        occurs_at(s, i, dec_digits(n)),
    ensures
        scan_num(s, i, acc) == scan_num(
            s,
            i + dec_digits(n).len(),
            acc * pow10(dec_digits(n).len()) + n,
        ),
    decreases n,
{
    lemma_dec_digits_digits(n);
    if n < 10 {
        assert(dec_digits(n)[0] == digit_char(n));
        assert(s[i] == digit_char(n));
        assert(digit_val(digit_char(n)) == n);
        assert(scan_num(s, i, acc) == scan_num(s, i + 1, acc * 10 + n));
        assert(pow10(0) == 1);
        assert(pow10(1) == 10);
    } else {
        let hi = dec_digits(n / 10);
        let lo = digit_char(n % 10);
        assert(dec_digits(n) == hi.push(lo));
        assert(hi.push(lo) =~= hi + seq![lo]);
        lemma_occurs_split(s, i, hi, seq![lo]);
        lemma_scan_num_digits(s, i, acc, n / 10);
        let l1 = hi.len();
        assert(s[i + l1] == lo) by {
            assert(seq![lo][0] == lo);
        }
        assert(is_digit(lo));
        assert(digit_val(lo) == n % 10);
        let x = acc * pow10(l1) + n / 10;
        assert(scan_num(s, i + l1, x) == scan_num(s, i + l1 + 1, x * 10 + n % 10));
        assert(dec_digits(n).len() == l1 + 1);
        assert(pow10(l1 + 1) == 10 * pow10(l1)) by {
            assert(l1 + 1 >= 1);
        }
        assert(x * 10 + n % 10 == acc * pow10(l1 + 1) + n) by (nonlinear_arith)
            requires
                x == acc * pow10(l1) + n / 10,
                pow10(l1 + 1) == 10 * pow10(l1),
                n >= 10,
        {
        }
        assert(scan_num(s, i, acc) == scan_num(
            s,
            i + dec_digits(n).len(),
            acc * pow10(dec_digits(n).len()) + n,
        ));
    }
}

/// Reading the digits that spell `n`, followed by something that is not a
/// digit, yields exactly `n`.
proof fn lemma_scan_num_value(s: Seq<char>, i: int, n: nat)
    requires
        occurs_at(s, i, dec_digits(n)),
        i + dec_digits(n).len() == s.len() || !is_digit(s[i + dec_digits(n).len()]),
    ensures
        scan_num(s, i, 0) == (n, i + dec_digits(n).len()),
{
    lemma_scan_num_digits(s, i, 0, n);
    assert(0 * pow10(dec_digits(n).len()) == 0) by (nonlinear_arith);
    let e = i + dec_digits(n).len();
    assert(scan_num(s, e, n) == (n, e));
}

proof fn lemma_hex_digit_val(h: nat)
    requires
        h < 16,
    ensures
        hex_val(hex_digit(h)) == Some(h),
{
}

/// Reading an escaped text followed by its closing quote yields the text
/// and stops just past the quote.
proof fn lemma_scan_string_escape(s: Seq<char>, i: int, t: Seq<char>)
    requires
        occurs_at(s, i, escape(t) + "\""@),
    ensures
        scan_string(s, i) == Some((t, i + escape(t).len() + 1)),
    decreases t.len(),
{
    reveal_strlit("\"");
    lemma_occurs_split(s, i, escape(t), "\""@);
    if t.len() == 0 {
        assert(s[i] == '"') by {
            assert(("\""@)[0] == '"');
        }
        assert(t =~= Seq::<char>::empty());
        assert(scan_string(s, i) == Some((t, i + 1)));
    } else {
        let c = t[0];
        let rest = t.drop_first();
        assert(t =~= seq![c] + rest);
        let e1 = esc_char(c);
        let er = escape(rest);
        assert(escape(t) == e1 + er);
        assert((e1 + er) + "\""@ =~= e1 + (er + "\""@));
        lemma_occurs_split(s, i, e1, er + "\""@);
        let i2 = i + e1.len();
        lemma_scan_string_escape(s, i2, rest);
        if c == '"' || c == '\\' {
            assert(s[i] == '\\') by {
                assert(e1[0] == '\\');
            }
            assert(s[i + 1] == c) by {
                assert(e1[1] == c);
            }
            assert(scan_string(s, i) == cons_char(c, scan_string(s, i + 2)));
        } else if c == '\n' {
            assert(s[i] == '\\') by {
                assert(e1[0] == '\\');
            }
            assert(s[i + 1] == 'n') by {
                assert(e1[1] == 'n');
            }
            assert(scan_string(s, i) == cons_char('\n', scan_string(s, i + 2)));
        } else if c == '\t' {
            assert(s[i] == '\\') by {
                assert(e1[0] == '\\');
            }
            assert(s[i + 1] == 't') by {
                assert(e1[1] == 't');
            }
            assert(scan_string(s, i) == cons_char('\t', scan_string(s, i + 2)));
        } else if c == '\r' {
            assert(s[i] == '\\') by {
                assert(e1[0] == '\\');
            }
            assert(s[i + 1] == 'r') by {
                assert(e1[1] == 'r');
            }
            assert(scan_string(s, i) == cons_char('\r', scan_string(s, i + 2)));
        } else if (c as u32) < 0x20 {
            let cu = c as u32;
            let hi = (cu / 16) as nat;
            let lo = (cu % 16) as nat;
            assert(e1 == seq!['\\', 'u', '0', '0', hex_digit(hi), hex_digit(lo)]);
            assert(s[i] == '\\') by {
                assert(e1[0] == '\\');
            }
            assert(s[i + 1] == 'u') by {
                assert(e1[1] == 'u');
            }
            assert(s[i + 2] == '0') by {
                assert(e1[2] == '0');
            }
            assert(s[i + 3] == '0') by {
                assert(e1[3] == '0');
            }
            assert(s[i + 4] == hex_digit(hi)) by {
                assert(e1[4] == hex_digit(hi));
            }
            assert(s[i + 5] == hex_digit(lo)) by {
                assert(e1[5] == hex_digit(lo));
            }
            lemma_hex_digit_val(hi);
            lemma_hex_digit_val(lo);
            assert(hex_val('0') == Some(0nat));
            let v = ((hex_val(s[i + 2]).unwrap() * 16 + hex_val(s[i + 3]).unwrap()) * 16 + hex_val(
                s[i + 4],
            ).unwrap()) * 16 + hex_val(s[i + 5]).unwrap();
            assert(v == hi * 16 + lo);
            assert(v == cu);
            assert(v as u32 == c as u32);
            vstd::utf8::char_is_scalar(c);
            assert(vstd::utf8::is_scalar(v as u32));
            vstd::utf8::char_u32_cast(c, v as u32);
            assert((v as u32) as char == c);
            assert(scan_hex4(s, i + 2) == Some((c, i + 6)));
            assert(scan_string(s, i) == cons_char(c, scan_string(s, i + 6)));
        } else {
            assert(s[i] == c) by {
                assert(e1[0] == c);
            }
            assert(scan_string(s, i) == cons_char(c, scan_string(s, i + 1)));
        }
        assert(scan_string(s, i) == Some((seq![c] + rest, i2 + er.len() + 1)));
        assert(escape(t).len() == e1.len() + er.len());
    }
}

/// Reading a written boolean yields it back.
proof fn lemma_scan_bool_encode(s: Seq<char>, i: int, b: bool)
    requires
        occurs_at(s, i, encode_bool(b)),
    ensures
        scan_bool(s, i) == Some((b, i + encode_bool(b).len())),
{
    reveal_strlit("true");
    reveal_strlit("false");
    if b {
        assert(expect(s, i, "true"@) == Some(i + 4));
    } else {
        assert(s[i] == 'f') by {
            assert(("false"@)[0] == 'f');
        }
        if occurs_at(s, i, "true"@) {
            assert(s[i] == 't') by {
                assert(("true"@)[0] == 't');
            }
        }
        assert(expect(s, i, "true"@) is None);
        assert(expect(s, i, "false"@) == Some(i + 5));
    }
}

/// Reading a written plain item yields it back.
proof fn lemma_scan_item_encode(s: Seq<char>, i: int, m: ItemModel)
    requires
        occurs_at(s, i, encode_item(m)),
    ensures
        scan_item(s, i) == Some((m, i + encode_item(m).len())),
{
    reveal_strlit("{\"id\":");
    reveal_strlit(",\"text\":\"");
    reveal_strlit("\"");
    reveal_strlit(",\"completed\":");
    reveal_strlit("}");
    let a = "{\"id\":"@;
    let d = dec_digits(m.id);
    let bkey = ",\"text\":\""@;
    let e = escape(m.text);
    let q = "\""@;
    let ckey = ",\"completed\":"@;
    let bl = encode_bool(m.completed);
    let z = "}"@;
    let p1 = a + d;
    let p2 = p1 + bkey;
    let p3 = p2 + e;
    let p4 = p3 + q;
    let p5 = p4 + ckey;
    let p6 = p5 + bl;
    assert(encode_item(m) == p6 + z);
    lemma_occurs_split(s, i, p6, z);
    lemma_occurs_split(s, i, p5, bl);
    lemma_occurs_split(s, i, p4, ckey);
    lemma_occurs_split(s, i, p3, q);
    lemma_occurs_split(s, i, p2, e);
    lemma_occurs_split(s, i, p1, bkey);
    lemma_occurs_split(s, i, a, d);
    let i_d = i + a.len();
    let i_b = i_d + d.len();
    let i_e = i_b + bkey.len();
    let i_q = i_e + e.len();
    let i_c = i_q + q.len();
    let i_bl = i_c + ckey.len();
    let i_z = i_bl + bl.len();
    let end = i_z + z.len();
    assert(expect(s, i, a) == Some(i_d));
    lemma_dec_digits_digits(m.id);
    assert(s[i_d] == d[0]);
    assert(is_digit(s[i_d]));
    assert(s[i_b] == ',') by {
        assert(bkey[0] == ',');
    }
    lemma_scan_num_value(s, i_d, m.id);
    assert(scan_num(s, i_d, 0) == (m.id, i_b));
    assert(expect(s, i_b, bkey) == Some(i_e));
    lemma_occurs_join(s, i_e, e, q);
    lemma_scan_string_escape(s, i_e, m.text);
    assert(scan_string(s, i_e) == Some((m.text, i_c)));
    lemma_scan_bool_encode(s, i_bl, m.completed);
    assert(scan_bool(s, i_bl) == Some((m.completed, i_z)));
    assert(expect(s, i_c, ckey) == Some(i_bl));
    assert(expect(s, i_z, z) == Some(end));
    assert((ItemModel { id: m.id, text: m.text, completed: m.completed }) =~= m);
    assert(scan_item(s, i) == Some((m, end)));
}

/// Reading a written run of trailing items yields them back.
proof fn lemma_scan_items_tail_encode(s: Seq<char>, i: int, ms: Seq<ItemModel>, k0: int)
    requires
        0 <= k0 <= ms.len(),
        occurs_at(s, i, encode_items_tail(ms, k0)),
    ensures
        scan_items_tail(s, i) == Some(
            (ms.skip(k0), i + encode_items_tail(ms, k0).len()),
        ),
    decreases ms.len() - k0,
{
    reveal_strlit("]");
    reveal_strlit(",");
    reveal_strlit("{\"id\":");
    if k0 == ms.len() {
        assert(encode_items_tail(ms, k0) == "]"@);
        assert(s[i] == ']') by {
            assert(("]"@)[0] == ']');
        }
        assert(ms.skip(k0) =~= Seq::<ItemModel>::empty());
        assert(scan_items_tail(s, i) == Some((Seq::<ItemModel>::empty(), i + 1)));
    } else {
        let cm = ","@;
        let em = encode_item(ms[k0]);
        let rest = encode_items_tail(ms, k0 + 1);
        assert(encode_items_tail(ms, k0) == cm + em + rest);
        assert((cm + em) + rest =~= cm + (em + rest));
        lemma_occurs_split(s, i, cm, em + rest);
        lemma_occurs_split(s, i + 1, em, rest);
        assert(s[i] == ',') by {
            assert(cm[0] == ',');
        }
        lemma_scan_item_encode(s, i + 1, ms[k0]);
        let j = i + 1 + em.len();
        assert(em.len() >= 6) by {
            assert(em == ("{\"id\":"@ + dec_digits(ms[k0].id) + ",\"text\":\""@ + escape(
                ms[k0].text,
            ) + "\""@ + ",\"completed\":"@ + encode_bool(ms[k0].completed) + "}"@));
        }
        lemma_scan_items_tail_encode(s, j, ms, k0 + 1);
        assert(seq![ms[k0]] + ms.skip(k0 + 1) =~= ms.skip(k0));
        assert(scan_items_tail(s, i) == Some(
            (ms.skip(k0), i + encode_items_tail(ms, k0).len()),
        ));
    }
}

/// Round trip for plain items: reading back a written collection yields an
/// equal collection — same ids, text and completion flags, in the same
/// order.
#[verifier::rlimit(80)]
pub proof fn lemma_items_round_trip(ms: Seq<ItemModel>)
    ensures
        scan_items(encode_items(ms)) == Some(ms),
{
    reveal_strlit("[]");
    reveal_strlit("[");
    reveal_strlit("]");
    reveal_strlit("{\"id\":");
    let s = encode_items(ms);
    assert(occurs_at(s, 0, s)) by {
        assert(forall|k: int| 0 <= k < s.len() ==> s[0 + k] == #[trigger] s[k]);
    }
    if ms.len() == 0 {
        assert(s == "[]"@);
        assert(s.len() == 2 && s[0] == '[' && s[1] == ']');
        assert(scan_items(s) == Some(Seq::<ItemModel>::empty()));
        assert(ms =~= Seq::<ItemModel>::empty());
    } else {
        let br = "["@;
        let em = encode_item(ms[0]);
        let rest = encode_items_tail(ms, 1);
        assert(s == br + em + rest);
        assert((br + em) + rest =~= br + (em + rest));
        lemma_occurs_split(s, 0, br, em + rest);
        lemma_occurs_split(s, 1, em, rest);
        assert(s[0] == '[') by {
            assert(br[0] == '[');
        }
        lemma_scan_item_encode(s, 1, ms[0]);
        assert(em.len() >= 6) by {
            assert(em == ("{\"id\":"@ + dec_digits(ms[0].id) + ",\"text\":\""@ + escape(ms[0].text)
                + "\""@ + ",\"completed\":"@ + encode_bool(ms[0].completed) + "}"@));
        }
        assert(s[1] == '{') by {
            assert(em[0] == '{') by {
                assert(("{\"id\":"@)[0] == '{');
                assert(occurs_at(s, 1, em));
                lemma_occurs_split(s, 1, "{\"id\":"@, dec_digits(ms[0].id) + ",\"text\":\""@
                    + escape(ms[0].text) + "\""@ + ",\"completed\":"@ + encode_bool(ms[0].completed)
                    + "}"@);
            }
        }
        let j: int = 1 + em.len() as int;
        lemma_scan_items_tail_encode(s, j, ms, 1);
        assert(seq![ms[0]] + ms.skip(1) =~= ms);
        assert(j + rest.len() == s.len());
        assert(scan_items(s) == Some(ms));
    }
}

/// Reading a written prioritized item yields it back.
proof fn lemma_scan_todo_encode(s: Seq<char>, i: int, m: TodoModel)
    requires
        occurs_at(s, i, encode_todo(m)),
    ensures
        scan_todo(s, i) == Some((m, i + encode_todo(m).len())),
{
    reveal_strlit("{\"text\":\"");
    reveal_strlit("\"");
    reveal_strlit(",\"completed\":");
    reveal_strlit(",\"priority\":");
    reveal_strlit("}");
    let a = "{\"text\":\""@;
    let e = escape(m.text);
    let q = "\""@;
    let ckey = ",\"completed\":"@;
    let bl = encode_bool(m.completed);
    let pkey = ",\"priority\":"@;
    let d = dec_digits(m.priority);
    let z = "}"@;
    let p1 = a + e;
    let p2 = p1 + q;
    let p3 = p2 + ckey;
    let p4 = p3 + bl;
    let p5 = p4 + pkey;
    let p6 = p5 + d;
    assert(encode_todo(m) == p6 + z);
    lemma_occurs_split(s, i, p6, z);
    lemma_occurs_split(s, i, p5, d);
    lemma_occurs_split(s, i, p4, pkey);
    lemma_occurs_split(s, i, p3, bl);
    lemma_occurs_split(s, i, p2, ckey);
    lemma_occurs_split(s, i, p1, q);
    lemma_occurs_split(s, i, a, e);
    let i_e = i + a.len();
    let i_q = i_e + e.len();
    let i_c = i_q + q.len();
    let i_bl = i_c + ckey.len();
    let i_p = i_bl + bl.len();
    let i_d = i_p + pkey.len();
    let i_z = i_d + d.len();
    let end = i_z + z.len();
    assert(expect(s, i, a) == Some(i_e));
    lemma_occurs_join(s, i_e, e, q);
    lemma_scan_string_escape(s, i_e, m.text);
    assert(scan_string(s, i_e) == Some((m.text, i_c)));
    assert(expect(s, i_c, ckey) == Some(i_bl));
    lemma_scan_bool_encode(s, i_bl, m.completed);
    assert(scan_bool(s, i_bl) == Some((m.completed, i_p)));
    assert(expect(s, i_p, pkey) == Some(i_d));
    lemma_dec_digits_digits(m.priority);
    assert(s[i_d] == d[0]);
    assert(is_digit(s[i_d]));
    assert(s[i_z] == '}') by {
        assert(z[0] == '}');
    }
    lemma_scan_num_value(s, i_d, m.priority);
    assert(scan_num(s, i_d, 0) == (m.priority, i_z));
    assert(expect(s, i_z, z) == Some(end));
    assert((TodoModel { text: m.text, completed: m.completed, priority: m.priority }) =~= m);
    assert(scan_todo(s, i) == Some((m, end)));
}

/// Reading a written run of trailing prioritized items yields them back.
proof fn lemma_scan_todos_tail_encode(s: Seq<char>, i: int, ms: Seq<TodoModel>, k0: int)
    requires
        0 <= k0 <= ms.len(),
        occurs_at(s, i, encode_todos_tail(ms, k0)),
    ensures
        scan_todos_tail(s, i) == Some(
            (ms.skip(k0), i + encode_todos_tail(ms, k0).len()),
        ),
    decreases ms.len() - k0,
{
    reveal_strlit("]");
    reveal_strlit(",");
    reveal_strlit("{\"text\":\"");
    if k0 == ms.len() {
        assert(encode_todos_tail(ms, k0) == "]"@);
        assert(s[i] == ']') by {
            assert(("]"@)[0] == ']');
        }
        assert(ms.skip(k0) =~= Seq::<TodoModel>::empty());
        assert(scan_todos_tail(s, i) == Some((Seq::<TodoModel>::empty(), i + 1)));
    } else {
        let cm = ","@;
        let em = encode_todo(ms[k0]);
        let rest = encode_todos_tail(ms, k0 + 1);
        assert(encode_todos_tail(ms, k0) == cm + em + rest);
        assert((cm + em) + rest =~= cm + (em + rest));
        lemma_occurs_split(s, i, cm, em + rest);
        lemma_occurs_split(s, i + 1, em, rest);
        assert(s[i] == ',') by {
            assert(cm[0] == ',');
        }
        lemma_scan_todo_encode(s, i + 1, ms[k0]);
        let j: int = i + 1 + em.len() as int;
        assert(em.len() >= 9) by {
            assert(em == ("{\"text\":\""@ + escape(ms[k0].text) + "\""@ + ",\"completed\":"@
                + encode_bool(ms[k0].completed) + ",\"priority\":"@ + dec_digits(ms[k0].priority)
                + "}"@));
        }
        lemma_scan_todos_tail_encode(s, j, ms, k0 + 1);
        assert(seq![ms[k0]] + ms.skip(k0 + 1) =~= ms.skip(k0));
        assert(scan_todos_tail(s, i) == Some(
            (ms.skip(k0), i + encode_todos_tail(ms, k0).len()),
        ));
    }
}

proof fn lemma_encode_todo_first(m: TodoModel)
    ensures
        encode_todo(m).len() >= 9,
        encode_todo(m)[0] == '{',
{
    reveal_strlit("{\"text\":\"");
    let a = "{\"text\":\""@;
    let e = escape(m.text);
    let q = "\""@;
    let ckey = ",\"completed\":"@;
    let bl = encode_bool(m.completed);
    let pkey = ",\"priority\":"@;
    let d = dec_digits(m.priority);
    let z = "}"@;
    let p1 = a + e;
    let p2 = p1 + q;
    let p3 = p2 + ckey;
    let p4 = p3 + bl;
    let p5 = p4 + pkey;
    let p6 = p5 + d;
    assert(encode_todo(m) == p6 + z);
    assert(a[0] == '{');
    assert(p1[0] == '{');
    assert(p2[0] == '{');
    assert(p3[0] == '{');
    assert(p4[0] == '{');
    assert(p5[0] == '{');
    assert(p6[0] == '{');
    assert((p6 + z)[0] == '{');
}

/// Round trip for prioritized items: reading back a written collection
/// yields an equal collection — same text, completion flags and priorities,
/// in the same order.
#[verifier::rlimit(100)]
pub proof fn lemma_todos_round_trip(ms: Seq<TodoModel>)
    ensures
        scan_todos(encode_todos(ms)) == Some(ms),
{
    reveal_strlit("[]");
    reveal_strlit("[");
    reveal_strlit("]");
    reveal_strlit("{\"text\":\"");
    let s = encode_todos(ms);
    assert(occurs_at(s, 0, s)) by {
        assert(forall|k: int| 0 <= k < s.len() ==> s[0 + k] == #[trigger] s[k]);
    }
    if ms.len() == 0 {
        assert(s == "[]"@);
        assert(s.len() == 2 && s[0] == '[' && s[1] == ']');
        assert(scan_todos(s) == Some(Seq::<TodoModel>::empty()));
        assert(ms =~= Seq::<TodoModel>::empty());
    } else {
        let br = "["@;
        let em = encode_todo(ms[0]);
        let rest = encode_todos_tail(ms, 1);
        assert(s == br + em + rest);
        assert((br + em) + rest =~= br + (em + rest));
        lemma_occurs_split(s, 0, br, em + rest);
        lemma_occurs_split(s, 1, em, rest);
        assert(s[0] == '[') by {
            assert(br[0] == '[');
        }
        lemma_scan_todo_encode(s, 1, ms[0]);
        lemma_encode_todo_first(ms[0]);
        assert(s[1] == '{') by {
            assert(em[0] == '{');
        }
        let j: int = 1 + em.len() as int;
        lemma_scan_todos_tail_encode(s, j, ms, 1);
        assert(seq![ms[0]] + ms.skip(1) =~= ms);
        assert(j + rest.len() == s.len());
        assert(scan_todos(s) == Some(ms));
    }
}
} // verus!
