//! Dependency-free JSON: parse and pretty-serialize, ASCII output,
//! insertion-ordered objects, malformed input refused rather than
//! guessed. Lives in the stream crate so the sidecar projection and its
//! readers (receiver, server, browser, phone) share one implementation
//! with zero dependencies.
use crate::ieee::{Binary64, INTEGER_LIMIT, TOP_64};
use crate::number;
use crate::number::{is_well_formed, parse_number};
use crate::text;
use crate::text::{digit_of, push_signed, push_unicode_escape};
use vstd::prelude::*;
use vstd::string::*;
use vstd::utf8::*;

verus! {

#[derive(Debug, PartialEq)]
pub enum Json {
    Null,
    Bool(bool),
    Num(Binary64),
    Str(String),
    Arr(Vec<Json>),
    /// Insertion-ordered so output is stable and diff-friendly (a
    /// hashmap would reorder keys run to run).
    Obj(Vec<(String, Json)>),
}

/// What a document says.
#[verifier::ext_equal]
pub enum JsonView {
    Null,
    Bool(bool),
    Num(Binary64),
    Str(Seq<char>),
    Arr(Seq<JsonView>),
    Obj(Seq<(Seq<char>, JsonView)>),
}

impl Json {
    /// What the document says.
    pub open spec fn meaning(self) -> JsonView
        decreases self,
    {
        match self {
            Json::Null => JsonView::Null,
            Json::Bool(b) => JsonView::Bool(b),
            Json::Num(n) => JsonView::Num(n),
            Json::Str(s) => JsonView::Str(s@),
            Json::Arr(a) => JsonView::Arr(Json::meanings(a@)),
            Json::Obj(kv) => JsonView::Obj(Json::members(kv@)),
        }
    }

    pub open spec fn meanings(a: Seq<Json>) -> Seq<JsonView>
        decreases a,
    {
        if a.len() == 0 {
            Seq::empty()
        } else {
            Json::meanings(a.drop_last()).push(a.last().meaning())
        }
    }

    pub open spec fn members(kv: Seq<(String, Json)>) -> Seq<(Seq<char>, JsonView)>
        decreases kv,
    {
        if kv.len() == 0 {
            Seq::empty()
        } else {
            Json::members(kv.drop_last()).push((kv.last().0@, kv.last().1.meaning()))
        }
    }
}

impl View for Json {
    type V = JsonView;

    open spec fn view(&self) -> JsonView {
        self.meaning()
    }
}

pub proof fn lemma_meanings(a: Seq<Json>)
    ensures
        Json::meanings(a).len() == a.len(),
        forall|i: int| 0 <= i < a.len() ==> #[trigger] Json::meanings(a)[i] == a[i].meaning(),
    decreases a.len(),
{
    if a.len() > 0 {
        lemma_meanings(a.drop_last());
    }
}

pub proof fn lemma_members(kv: Seq<(String, Json)>)
    ensures
        Json::members(kv).len() == kv.len(),
        forall|i: int|
            0 <= i < kv.len() ==> #[trigger] Json::members(kv)[i] == (
                kv[i].0@,
                kv[i].1.meaning(),
            ),
    decreases kv.len(),
{
    if kv.len() > 0 {
        lemma_members(kv.drop_last());
    }
}

/// A copy of a document.
fn copied(j: &Json) -> (r: Json)
    ensures
        r@ == j@,
    decreases j,
{
    match j {
        Json::Null => Json::Null,
        Json::Bool(b) => Json::Bool(*b),
        Json::Num(n) => Json::Num(*n),
        Json::Str(s) => Json::Str(s.clone()),
        Json::Arr(a) => {
            let mut out: Vec<Json> = Vec::new();
            let mut i: usize = 0;
            while i < a.len()
                invariant
                    i <= a@.len(),
                    *j == Json::Arr(*a),
                    out@.len() == i,
                    forall|k: int| 0 <= k < i ==> out@[k].meaning() == #[trigger] a@[k].meaning(),
                decreases a.len() - i,
            {
                proof {
                    assert(decreases_to!(j => j->Arr_0));
                    assert(decreases_to!(j->Arr_0 => j->Arr_0@));
                    assert(decreases_to!(a@ => a@[i as int]));
                }
                out.push(copied(&a[i]));
                i = i + 1;
            }
            proof {
                lemma_meanings(a@);
                lemma_meanings(out@);
                assert(Json::meanings(out@) =~= Json::meanings(a@));
            }
            Json::Arr(out)
        },
        Json::Obj(kv) => {
            let mut out: Vec<(String, Json)> = Vec::new();
            let mut i: usize = 0;
            while i < kv.len()
                invariant
                    i <= kv@.len(),
                    *j == Json::Obj(*kv),
                    out@.len() == i,
                    forall|k: int|
                        0 <= k < i ==> out@[k].0@ == (#[trigger] kv@[k]).0@
                            && out@[k].1.meaning() == kv@[k].1.meaning(),
                decreases kv.len() - i,
            {
                proof {
                    assert(decreases_to!(j => j->Obj_0));
                    assert(decreases_to!(j->Obj_0 => j->Obj_0@));
                    assert(decreases_to!(kv@ => kv@[i as int]));
                    assert(decreases_to!(kv@[i as int] => kv@[i as int].1));
                }
                out.push((kv[i].0.clone(), copied(&kv[i].1)));
                i = i + 1;
            }
            proof {
                lemma_members(kv@);
                lemma_members(out@);
                assert(Json::members(out@) =~= Json::members(kv@));
            }
            Json::Obj(out)
        },
    }
}

impl Clone for Json {
    fn clone(&self) -> (r: Self)
        ensures
            r@ == self@,
    {
        copied(self)
    }
}

// ---------------------------------------------------------------------
// Accessors.
// ---------------------------------------------------------------------
/// The first member under a key.
pub open spec fn lookup(kv: Seq<(Seq<char>, JsonView)>, key: Seq<char>) -> Option<JsonView>
    decreases kv.len(),
{
    if kv.len() == 0 {
        None
    } else if kv[0].0 == key {
        Some(kv[0].1)
    } else {
        lookup(kv.skip(1), key)
    }
}

impl JsonView {
    /// A member of an object, nothing where there is none.
    pub open spec fn get(self, key: Seq<char>) -> Option<JsonView> {
        match self {
            JsonView::Obj(kv) => lookup(kv, key),
            _ => None,
        }
    }
}

impl Json {
    /// A member of an object by key, or `None` for non-objects / absent.
    pub fn get(&self, key: &str) -> (r: Option<&Json>)
        ensures
            r is Some <==> self@.get(key@) is Some,
            r matches Some(v) ==> self@.get(key@) == Some(v@),
    {
        match self {
            Json::Obj(kv) => {
                let wanted = key.to_owned();
                let mut i: usize = 0;
                let ghost all = Json::members(kv@);
                proof {
                    lemma_members(kv@);
                    assert(all.skip(0) =~= all);
                }
                while i < kv.len()
                    invariant
                        i <= kv@.len(),
                        *self == Json::Obj(*kv),
                        wanted@ == key@,
                        all == Json::members(kv@),
                        all.len() == kv@.len(),
                        lookup(all, key@) == lookup(all.skip(i as int), key@),
                    decreases kv.len() - i,
                {
                    proof {
                        lemma_members(kv@);
                        assert(all.skip(i as int).skip(1) =~= all.skip(i + 1));
                        assert(all.skip(i as int)[0] == all[i as int]);
                    }
                    if kv[i].0 == wanted {
                        return Some(&kv[i].1);
                    }
                    i = i + 1;
                }
                None
            },
            _ => None,
        }
    }

    pub fn as_array(&self) -> (r: Option<&[Json]>)
        ensures
            r is Some <==> self@ is Arr,
            r matches Some(a) ==> self@ == JsonView::Arr(Json::meanings(a@)),
    {
        match self {
            Json::Arr(a) => Some(a.as_slice()),
            _ => None,
        }
    }

    pub fn as_str(&self) -> (r: Option<&str>)
        ensures
            r is Some <==> self@ is Str,
            r matches Some(s) ==> self@ == JsonView::Str(s@),
    {
        match self {
            Json::Str(s) => Some(s.as_str()),
            _ => None,
        }
    }

    pub fn as_f64(&self) -> (r: Option<Binary64>)
        ensures
            r is Some <==> self@ is Num,
            r matches Some(n) ==> self@ == JsonView::Num(n),
    {
        match self {
            Json::Num(n) => Some(*n),
            _ => None,
        }
    }

    /// Integer accessors: our numbers are all integers well under 2^53,
    /// so a double holds them exactly (Hz ≤ ~1 GHz, offsets ± tens of MHz).
    pub fn as_u64(&self) -> (r: Option<u64>)
        ensures
            r is Some <==> self@ is Num,
            r matches Some(v) ==> v == self@->Num_0.rounded(0, u64::MAX as int),
    {
        match self {
            Json::Num(n) => Some(n.to_u64()),
            _ => None,
        }
    }

    pub fn as_i64(&self) -> (r: Option<i64>)
        ensures
            r is Some <==> self@ is Num,
            r matches Some(v) ==> v == self@->Num_0.rounded(i64::MIN as int, i64::MAX as int),
    {
        match self {
            Json::Num(n) => Some(n.to_i64()),
            _ => None,
        }
    }
}

// ---------------------------------------------------------------------
// Serialization.
// ---------------------------------------------------------------------
/// A character as it stands in a string: ASCII as it is, but for quotes,
/// backslashes and control characters, and `\uXXXX` for what is not ASCII, a
/// surrogate pair where one code unit is not enough.
pub open spec fn escape(c: char) -> Seq<char> {
    if c == '"' {
        seq!['\\', '"']
    } else if c == '\\' {
        seq!['\\', '\\']
    } else if c == '\n' {
        seq!['\\', 'n']
    } else if c == '\t' {
        seq!['\\', 't']
    } else if c == '\r' {
        seq!['\\', 'r']
    } else if 0x20 <= c as u32 <= 0x7f {
        seq![c]
    } else if (c as u32) < 0x1_0000 {
        text::unicode_escape(c as int)
    } else {
        text::unicode_escape(high_surrogate(c)) + text::unicode_escape(low_surrogate(c))
    }
}

/// The first code unit of a character from `U+10000` on.
pub open spec fn high_surrogate(c: char) -> int {
    0xD800 + (c as int - 0x1_0000) / 0x400
}

/// The second code unit of a character from `U+10000` on.
pub open spec fn low_surrogate(c: char) -> int {
    0xDC00 + (c as int - 0x1_0000) % 0x400
}

/// Characters as they stand in a string.
pub open spec fn escaped(s: Seq<char>) -> Seq<char>
    decreases s.len(),
{
    if s.len() == 0 {
        Seq::empty()
    } else {
        escape(s[0]) + escaped(s.skip(1))
    }
}

/// A string in its quotes.
pub open spec fn quoted(s: Seq<char>) -> Seq<char> {
    seq!['"'] + escaped(s) + seq!['"']
}

/// A number in a document: integers without a point, everything else with
/// the fewest digits that give it back.
pub open spec fn number_text(n: Binary64) -> Seq<char> {
    match Binary64::integer(n.magnitude()) {
        Some(v) if v < INTEGER_LIMIT && !n.nan() => text::signed_decimal(
            if n.negative() {
                -(v as int)
            } else {
                v as int
            },
        ),
        _ => n.display(),
    }
}

/// A document, its lines indented by two spaces a level; `pad` is the
/// indentation of the line it stands on.
pub open spec fn pretty(j: JsonView, pad: Seq<char>) -> Seq<char>
    decreases j,
{
    match j {
        JsonView::Null => seq!['n', 'u', 'l', 'l'],
        JsonView::Bool(b) => if b {
            seq!['t', 'r', 'u', 'e']
        } else {
            seq!['f', 'a', 'l', 's', 'e']
        },
        JsonView::Num(n) => number_text(n),
        JsonView::Str(s) => quoted(s),
        JsonView::Arr(a) => if a.len() == 0 {
            seq!['[', ']']
        } else {
            seq!['[', '\n'] + item_lines(a, pad + seq![' ', ' ']) + pad + seq![']']
        },
        JsonView::Obj(kv) => if kv.len() == 0 {
            seq!['{', '}']
        } else {
            seq!['{', '\n'] + member_lines(kv, pad + seq![' ', ' ']) + pad + seq!['}']
        },
    }
}

/// How a line in a list ends.
pub open spec fn line_end(last: bool) -> Seq<char> {
    if last {
        seq!['\n']
    } else {
        seq![',', '\n']
    }
}

/// The items of an array, one a line.
pub open spec fn item_lines(a: Seq<JsonView>, pad: Seq<char>) -> Seq<char>
    decreases a,
{
    if a.len() == 0 {
        Seq::empty()
    } else {
        pad + pretty(a[0], pad) + line_end(a.len() == 1) + item_lines(a.skip(1), pad)
    }
}

/// The members of an object, one a line.
pub open spec fn member_lines(kv: Seq<(Seq<char>, JsonView)>, pad: Seq<char>) -> Seq<char>
    decreases kv,
{
    if kv.len() == 0 {
        Seq::empty()
    } else {
        pad + quoted(kv[0].0) + seq![':', ' '] + pretty(kv[0].1, pad) + line_end(kv.len() == 1)
            + member_lines(kv.skip(1), pad)
    }
}

proof fn lemma_escaped_push(s: Seq<char>, c: char)
    ensures
        escaped(s.push(c)) == escaped(s) + escape(c),
    decreases s.len(),
{
    if s.len() == 0 {
        assert(s.push(c).skip(1) =~= Seq::empty());
        assert(escaped(Seq::empty()) =~= Seq::empty());
        assert(s.push(c)[0] == c);
        assert(escaped(s.push(c)) =~= escaped(s) + escape(c));
    } else {
        lemma_escaped_push(s.skip(1), c);
        assert(s.push(c).skip(1) =~= s.skip(1).push(c));
        assert(s.push(c)[0] == s[0]);
        assert(escaped(s.push(c)) =~= escaped(s) + escape(c));
    }
}

/// Append a character as it stands in a string.
fn write_char(out: &mut String, c: char)
    ensures
        final(out)@ == old(out)@ + escape(c),
{
    if c == '"' {
        out.push('\\');
        out.push('"');
    } else if c == '\\' {
        out.push('\\');
        out.push('\\');
    } else if c == '\n' {
        out.push('\\');
        out.push('n');
    } else if c == '\t' {
        out.push('\\');
        out.push('t');
    } else if c == '\r' {
        out.push('\\');
        out.push('r');
    } else if 0x20 <= c as u32 && c as u32 <= 0x7f {
        out.push(c);
    } else {
        let v: u32 = c as u32;
        if v < 0x1_0000 {
            push_unicode_escape(out, v);
        } else {
            push_unicode_escape(out, 0xD800 + (v - 0x1_0000) / 0x400);
            push_unicode_escape(out, 0xDC00 + (v - 0x1_0000) % 0x400);
        }
    }
    assert(out@ =~= old(out)@ + escape(c));
}

/// Append a string in its quotes.
pub fn write_str(out: &mut String, s: &str)
    ensures
        final(out)@ == old(out)@ + quoted(s@),
{
    out.push('"');
    let ghost start = out@;
    broadcast use vstd::string::axiom_spec_iter;
    for c in it: s.chars()
        invariant
            it.seq() == s@,
            out@ =~= start + escaped(s@.take(it.index() as int)),
    {
        proof {
            let k = it.index() as int;
            assert(s@.take(k + 1) =~= s@.take(k).push(c));
            lemma_escaped_push(s@.take(k), c);
        }
        write_char(out, c);
    }
    assert(s@.take(s@.len() as int) =~= s@);
    out.push('"');
    assert(out@ =~= old(out)@ + quoted(s@));
}

fn write_number(out: &mut String, n: Binary64)
    ensures
        final(out)@ == old(out)@ + number_text(n),
{
    let mag: u64 = n.bits % 0x8000_0000_0000_0000;
    if mag <= TOP_64 {
        if let Some(v) = Binary64::small_integer(mag) {
            let v: i128 = v as i128;
            push_signed(
                out,
                if n.bits >= 0x8000_0000_0000_0000 {
                    -v
                } else {
                    v
                },
            );
            return;
        }
    }
    n.push_display(out);
}

/// An escaped character is ASCII.
proof fn lemma_escape_ascii(c: char)
    ensures
        is_ascii_chars(escape(c)),
{
    if (c as u32) < 0x1_0000 {
        text::lemma_unicode_escape_ascii(c as int);
    } else {
        text::lemma_unicode_escape_ascii(high_surrogate(c));
        text::lemma_unicode_escape_ascii(low_surrogate(c));
    }
}

/// Escaped text is ASCII.
proof fn lemma_escaped_ascii(s: Seq<char>)
    ensures
        is_ascii_chars(escaped(s)),
    decreases s.len(),
{
    if s.len() > 0 {
        lemma_escaped_ascii(s.skip(1));
        lemma_escape_ascii(s[0]);
    }
}

/// Numbers are written in ASCII.
proof fn lemma_number_ascii(n: Binary64)
    ensures
        is_ascii_chars(number_text(n)),
{
    number::lemma_display_ascii(n);
    if let Some(v) = Binary64::integer(n.magnitude()) {
        text::lemma_numeral_ascii(v, 10);
    }
}

/// Documents are written in ASCII.
pub proof fn documents_are_ascii(j: JsonView, pad: Seq<char>)
    requires
        is_ascii_chars(pad),
    ensures
        is_ascii_chars(pretty(j, pad)),
    decreases j, 0int,
{
    let inner = pad + seq![' ', ' '];
    match j {
        JsonView::Num(n) => lemma_number_ascii(n),
        JsonView::Str(s) => lemma_escaped_ascii(s),
        JsonView::Arr(a) => lemma_items_ascii(a, inner),
        JsonView::Obj(kv) => lemma_members_ascii(kv, inner),
        _ => {},
    }
}

proof fn lemma_items_ascii(a: Seq<JsonView>, pad: Seq<char>)
    requires
        is_ascii_chars(pad),
    ensures
        is_ascii_chars(item_lines(a, pad)),
    decreases a, 1int,
{
    if a.len() > 0 {
        documents_are_ascii(a[0], pad);
        lemma_items_ascii(a.skip(1), pad);
    }
}

proof fn lemma_members_ascii(kv: Seq<(Seq<char>, JsonView)>, pad: Seq<char>)
    requires
        is_ascii_chars(pad),
    ensures
        is_ascii_chars(member_lines(kv, pad)),
    decreases kv, 1int,
{
    if kv.len() > 0 {
        assert(decreases_to!(kv => kv[0]));
        assert(decreases_to!(kv[0] => kv[0].1));
        lemma_escaped_ascii(kv[0].0);
        documents_are_ascii(kv[0].1, pad);
        lemma_members_ascii(kv.skip(1), pad);
    }
}

fn write_line_end(out: &mut String, last: bool)
    ensures
        final(out)@ == old(out)@ + line_end(last),
{
    if !last {
        out.push(',');
    }
    out.push('\n');
    assert(out@ =~= old(out)@ + line_end(last));
}

impl Json {
    /// Serialize with two-space indentation and a trailing newline —
    /// human-readable and diff-stable, which is the whole point of
    /// leaving CSV behind.
    pub fn to_pretty(&self) -> (s: String)
        ensures
            s@ == pretty(self@, Seq::empty()).push('\n'),
            is_ascii_chars(s@),
    {
        let mut s = String::new();
        let pad = String::new();
        self.write(&mut s, &pad);
        s.push('\n');
        assert(pad@ =~= Seq::empty());
        proof {
            documents_are_ascii(self@, Seq::empty());
        }
        assert(s@ =~= pretty(self@, Seq::empty()).push('\n'));
        s
    }

    fn write(&self, out: &mut String, pad: &String)
        ensures
            final(out)@ == old(out)@ + pretty(self@, pad@),
        decreases self,
    {
        match self {
            Json::Null => {
                proof {
                    reveal_strlit("null");
                }
                out.append("null");
            },
            Json::Bool(b) => {
                proof {
                    reveal_strlit("true");
                    reveal_strlit("false");
                }
                if *b {
                    out.append("true");
                } else {
                    out.append("false");
                }
            },
            Json::Num(n) => {
                write_number(out, *n);
            },
            Json::Str(s) => {
                write_str(out, s.as_str());
            },
            Json::Arr(a) => {
                let ghost all = Json::meanings(a@);
                proof {
                    lemma_meanings(a@);
                }
                out.push('[');
                if a.len() > 0 {
                    out.push('\n');
                    let mut inner = pad.clone();
                    inner.push(' ');
                    inner.push(' ');
                    let ghost total = out@ + item_lines(all, inner@);
                    let mut i: usize = 0;
                    assert(all.skip(0) =~= all);
                    while i < a.len()
                        invariant
                            i <= a@.len(),
                            *self == Json::Arr(*a),
                            all == Json::meanings(a@),
                            all.len() == a@.len(),
                            total == out@ + item_lines(all.skip(i as int), inner@),
                        decreases a.len() - i,
                    {
                        let ghost before = out@;
                        out.append(inner.as_str());
                        proof {
                            lemma_meanings(a@);
                            assert(decreases_to!(self => self->Arr_0));
                            assert(decreases_to!(self->Arr_0 => self->Arr_0@));
                            assert(decreases_to!(a@ => a@[i as int]));
                        }
                        a[i].write(out, &inner);
                        write_line_end(out, i + 1 == a.len());
                        proof {
                            let rest = all.skip(i as int);
                            assert(rest[0] == all[i as int]);
                            assert(rest.skip(1) =~= all.skip(i + 1));
                            assert(rest.len() == 1 <==> i + 1 == a@.len());
                            assert(before + item_lines(rest, inner@) =~= out@ + item_lines(
                                rest.skip(1),
                                inner@,
                            ));
                        }
                        i = i + 1;
                    }
                    proof {
                        assert(all.skip(all.len() as int) =~= Seq::empty());
                        assert(out@ =~= total);
                        assert(inner@ =~= pad@ + seq![' ', ' ']);
                    }
                    out.append(pad.as_str());
                }
                out.push(']');
                assert(out@ =~= old(out)@ + pretty(self@, pad@));
            },
            Json::Obj(kv) => {
                let ghost all = Json::members(kv@);
                proof {
                    lemma_members(kv@);
                }
                out.push('{');
                if kv.len() > 0 {
                    out.push('\n');
                    let mut inner = pad.clone();
                    inner.push(' ');
                    inner.push(' ');
                    let ghost total = out@ + member_lines(all, inner@);
                    let mut i: usize = 0;
                    assert(all.skip(0) =~= all);
                    while i < kv.len()
                        invariant
                            i <= kv@.len(),
                            *self == Json::Obj(*kv),
                            all == Json::members(kv@),
                            all.len() == kv@.len(),
                            total == out@ + member_lines(all.skip(i as int), inner@),
                        decreases kv.len() - i,
                    {
                        let ghost before = out@;
                        out.append(inner.as_str());
                        write_str(out, kv[i].0.as_str());
                        out.push(':');
                        out.push(' ');
                        proof {
                            lemma_members(kv@);
                            assert(decreases_to!(self => self->Obj_0));
                            assert(decreases_to!(self->Obj_0 => self->Obj_0@));
                            assert(decreases_to!(kv@ => kv@[i as int]));
                            assert(decreases_to!(kv@[i as int] => kv@[i as int].1));
                        }
                        kv[i].1.write(out, &inner);
                        write_line_end(out, i + 1 == kv.len());
                        proof {
                            let rest = all.skip(i as int);
                            assert(rest[0] == all[i as int]);
                            assert(rest.skip(1) =~= all.skip(i + 1));
                            assert(rest.len() == 1 <==> i + 1 == kv@.len());
                            assert(before + member_lines(rest, inner@) =~= out@ + member_lines(
                                rest.skip(1),
                                inner@,
                            ));
                        }
                        i = i + 1;
                    }
                    proof {
                        assert(all.skip(all.len() as int) =~= Seq::empty());
                        assert(out@ =~= total);
                        assert(inner@ =~= pad@ + seq![' ', ' ']);
                    }
                    out.append(pad.as_str());
                }
                out.push('}');
                assert(out@ =~= old(out)@ + pretty(self@, pad@));
            },
        }
    }
}

// ---------------------------------------------------------------------
// The grammar: what a text opens with, and what is left of it.
// ---------------------------------------------------------------------
/// Blank between tokens.
pub open spec fn is_blank(c: char) -> bool {
    c == ' ' || c == '\t' || c == '\n' || c == '\r'
}

/// `s` without the blanks that it opens with.
pub open spec fn after_blanks(s: Seq<char>) -> Seq<char>
    decreases s.len(),
{
    if s.len() > 0 && is_blank(s[0]) {
        after_blanks(s.skip(1))
    } else {
        s
    }
}

/// The character that an escape stands for.
pub open spec fn unescape(e: char) -> Option<char> {
    if e == '"' {
        Some('"')
    } else if e == '\\' {
        Some('\\')
    } else if e == '/' {
        Some('/')
    } else if e == 'n' {
        Some('\n')
    } else if e == 't' {
        Some('\t')
    } else if e == 'r' {
        Some('\r')
    } else {
        None
    }
}

/// The number that the four hexadecimal digits that `s` opens with spell.
pub open spec fn code_unit(s: Seq<char>) -> Option<nat> {
    if s.len() < 4 {
        None
    } else {
        match (
            text::digit_value(s[0], 16),
            text::digit_value(s[1], 16),
            text::digit_value(s[2], 16),
            text::digit_value(s[3], 16),
        ) {
            (Some(w), Some(x), Some(y), Some(z)) => Some(4096 * w + 256 * x + 16 * y + z),
            _ => None,
        }
    }
}

/// The character that a `\uXXXX` escape, or a pair of them, stands for, with
/// the characters it takes. A surrogate that stands alone is none.
pub open spec fn unicode_char(s: Seq<char>) -> Option<(char, int)> {
    match code_unit(s.skip(2)) {
        Some(v) => if v < 0xD800 || 0xE000 <= v {
            Some((v as char, 6))
        } else if v < 0xDC00 && s.len() >= 8 && s[6] == '\\' && s[7] == 'u' {
            match code_unit(s.skip(8)) {
                Some(w) if 0xDC00 <= w < 0xE000 => Some(
                    ((0x1_0000 + (v - 0xD800) * 0x400 + (w - 0xDC00)) as char, 12),
                ),
                _ => None,
            }
        } else {
            None
        },
        None => None,
    }
}

/// The first character of a string that has not ended, with the characters
/// it takes: an escape, or a character that is no control character. What is
/// not ASCII stands for itself where the reader is wide, and nowhere else.
pub open spec fn string_char(s: Seq<char>, wide: bool) -> Option<(char, int)> {
    if s.len() == 0 {
        None
    } else if s[0] == '\\' {
        if s.len() < 2 {
            None
        } else if s[1] == 'u' {
            unicode_char(s)
        } else {
            match unescape(s[1]) {
                Some(c) => Some((c, 2)),
                None => None,
            }
        }
    } else if s[0] >= ' ' && (wide || s[0] as u32 <= 0x7f) {
        Some((s[0], 1))
    } else {
        None
    }
}

/// The string whose opening quote stands before `s`.
pub open spec fn string_at(s: Seq<char>, wide: bool) -> Option<(Seq<char>, Seq<char>)>
    decreases s.len(),
{
    if s.len() > 0 && s[0] == '"' {
        Some((Seq::empty(), s.skip(1)))
    } else {
        match string_char(s, wide) {
            Some((c, n)) => match string_at(s.skip(n), wide) {
                Some((t, rest)) => Some((seq![c] + t, rest)),
                None => None,
            },
            None => None,
        }
    }
}

/// A character that a numeral is made of.
pub open spec fn in_numeral(c: char) -> bool {
    '0' <= c <= '9' || c == '.' || c == 'e' || c == 'E' || c == '+' || c == '-'
}

/// How many such characters `s` opens with.
pub open spec fn numeral_len(s: Seq<char>) -> nat
    decreases s.len(),
{
    if s.len() > 0 && in_numeral(s[0]) {
        1 + numeral_len(s.skip(1))
    } else {
        0
    }
}

/// ASCII text as octets.
pub open spec fn octets(s: Seq<char>) -> Seq<u8> {
    Seq::new(s.len(), |i: int| s[i] as u8)
}

/// The number that `s` opens with.
pub open spec fn number_at(s: Seq<char>) -> Option<(JsonView, Seq<char>)> {
    let n = numeral_len(s) as int;
    let b = octets(s.take(n));
    match number::read_number(b) {
        Some(v) if number::well_formed(b) => Some((JsonView::Num(v), s.skip(n))),
        _ => None,
    }
}

/// The word that `s` opens with.
pub open spec fn word_at(s: Seq<char>, word: Seq<char>, v: JsonView) -> Option<(JsonView, Seq<char>)> {
    if word.len() <= s.len() && s.take(word.len() as int) == word {
        Some((v, s.skip(word.len() as int)))
    } else {
        None
    }
}

pub open spec fn word_true() -> Seq<char> {
    seq!['t', 'r', 'u', 'e']
}

pub open spec fn word_false() -> Seq<char> {
    seq!['f', 'a', 'l', 's', 'e']
}

pub open spec fn word_null() -> Seq<char> {
    seq!['n', 'u', 'l', 'l']
}

/// The value of one token that `s` opens with.
pub open spec fn scalar_at(s: Seq<char>, wide: bool) -> Option<(JsonView, Seq<char>)> {
    if s[0] == '"' {
        match string_at(s.skip(1), wide) {
            Some((t, rest)) => Some((JsonView::Str(t), rest)),
            None => None,
        }
    } else if s[0] == 't' {
        word_at(s, word_true(), JsonView::Bool(true))
    } else if s[0] == 'f' {
        word_at(s, word_false(), JsonView::Bool(false))
    } else if s[0] == 'n' {
        word_at(s, word_null(), JsonView::Null)
    } else {
        number_at(s)
    }
}

/// The array whose bracket stands before `t`, where `items` are what `t`
/// opens with.
pub open spec fn array_of(
    t: Seq<char>,
    items: Option<(Seq<JsonView>, Seq<char>)>,
) -> Option<(JsonView, Seq<char>)> {
    if t.len() > 0 && t[0] == ']' {
        Some((JsonView::Arr(Seq::empty()), t.skip(1)))
    } else {
        match items {
            Some((a, rest)) => Some((JsonView::Arr(a), rest)),
            None => None,
        }
    }
}

/// The object whose brace stands before `t`, where `members` are what `t`
/// opens with.
pub open spec fn object_of(
    t: Seq<char>,
    members: Option<(Seq<(Seq<char>, JsonView)>, Seq<char>)>,
) -> Option<(JsonView, Seq<char>)> {
    if t.len() > 0 && t[0] == '}' {
        Some((JsonView::Obj(Seq::empty()), t.skip(1)))
    } else {
        match members {
            Some((kv, rest)) => Some((JsonView::Obj(kv), rest)),
            None => None,
        }
    }
}

/// The value that `s` opens with.
#[verifier::opaque]
pub open spec fn value_at(s: Seq<char>, wide: bool) -> Option<(JsonView, Seq<char>)>
    decreases s.len(), 0int,
{
    let t = after_blanks(s.skip(1));
    if s.len() == 0 {
        None
    } else if s[0] == '{' {
        proof {
            lemma_after_blanks(s.skip(1));
        }
        object_of(t, members_at(t, wide))
    } else if s[0] == '[' {
        proof {
            lemma_after_blanks(s.skip(1));
        }
        array_of(t, items_at(t, wide))
    } else {
        scalar_at(s, wide)
    }
}

/// One value or more, with commas between them, and the closing bracket.
/// (What is left of a text is never longer than the text.)
#[verifier::opaque]
pub open spec fn items_at(s: Seq<char>, wide: bool) -> Option<(Seq<JsonView>, Seq<char>)>
    decreases s.len(), 1int,
{
    proof {
        lemma_after_blanks(s);
    }
    match value_at(after_blanks(s), wide) {
        Some((v, rest)) => {
            let t = after_blanks(rest);
            if t.len() == 0 || t.len() > s.len() {
                None
            } else if t[0] == ',' {
                after_items(seq![v], items_at(t.skip(1), wide))
            } else if t[0] == ']' {
                Some((seq![v], t.skip(1)))
            } else {
                None
            }
        },
        None => None,
    }
}

/// Items that were read, and those that follow.
pub open spec fn after_items(
    before: Seq<JsonView>,
    r: Option<(Seq<JsonView>, Seq<char>)>,
) -> Option<(Seq<JsonView>, Seq<char>)> {
    match r {
        Some((a, rest)) => Some((before + a, rest)),
        None => None,
    }
}

/// The key that `s` opens with, and what is left behind its colon.
pub open spec fn key_at(s: Seq<char>, wide: bool) -> Option<(Seq<char>, Seq<char>)> {
    let t = after_blanks(s);
    if t.len() > 0 && t[0] == '"' {
        match string_at(t.skip(1), wide) {
            Some((k, rest)) => {
                let u = after_blanks(rest);
                if u.len() > 0 && u[0] == ':' {
                    Some((k, after_blanks(u.skip(1))))
                } else {
                    None
                }
            },
            None => None,
        }
    } else {
        None
    }
}

/// One member or more, with commas between them, and the closing brace.
/// (What is left of a text is never longer than the text.)
#[verifier::opaque]
pub open spec fn members_at(s: Seq<char>, wide: bool) -> Option<
    (Seq<(Seq<char>, JsonView)>, Seq<char>),
>
    decreases s.len(), 1int,
{
    proof {
        lemma_key_at(s, wide);
    }
    match key_at(s, wide) {
        Some((k, u)) => match value_at(u, wide) {
            Some((v, rest)) => {
                let t = after_blanks(rest);
                if t.len() == 0 || t.len() > s.len() {
                    None
                } else if t[0] == ',' {
                    after_members(seq![(k, v)], members_at(t.skip(1), wide))
                } else if t[0] == '}' {
                    Some((seq![(k, v)], t.skip(1)))
                } else {
                    None
                }
            },
            None => None,
        },
        None => None,
    }
}

/// Members that were read, and those that follow.
pub open spec fn after_members(
    before: Seq<(Seq<char>, JsonView)>,
    r: Option<(Seq<(Seq<char>, JsonView)>, Seq<char>)>,
) -> Option<(Seq<(Seq<char>, JsonView)>, Seq<char>)> {
    match r {
        Some((kv, rest)) => Some((before + kv, rest)),
        None => None,
    }
}

/// The document that a text is, with nothing behind it.
pub open spec fn document(s: Seq<char>, wide: bool) -> Option<JsonView> {
    match value_at(after_blanks(s), wide) {
        Some((v, rest)) => if after_blanks(rest).len() == 0 {
            Some(v)
        } else {
            None
        },
        None => None,
    }
}

pub proof fn lemma_after_blanks(s: Seq<char>)
    ensures
        after_blanks(s).len() <= s.len(),
        after_blanks(s) == s.skip(s.len() - after_blanks(s).len()),
        forall|i: int| 0 <= i < s.len() - after_blanks(s).len() ==> is_blank(#[trigger] s[i]),
        after_blanks(s).len() > 0 ==> !is_blank(after_blanks(s)[0]),
    decreases s.len(),
{
    if s.len() > 0 && is_blank(s[0]) {
        lemma_after_blanks(s.skip(1));
        let t = after_blanks(s);
        assert(s.skip(1).skip(s.len() - 1 - t.len()) =~= s.skip(s.len() - t.len()));
        assert forall|i: int| 0 <= i < s.len() - t.len() implies is_blank(#[trigger] s[i]) by {
            if i > 0 {
                assert(s.skip(1)[i - 1] == s[i]);
            }
        }
    } else {
        assert(s.skip(0) =~= s);
    }
}

proof fn lemma_string_at(s: Seq<char>, wide: bool)
    ensures
        string_at(s, wide) matches Some((t, rest)) ==> rest.len() < s.len(),
    decreases s.len(),
{
    if s.len() > 0 && s[0] == '"' {
    } else if let Some((c, n)) = string_char(s, wide) {
        lemma_string_at(s.skip(n), wide);
    }
}

pub proof fn lemma_key_at(s: Seq<char>, wide: bool)
    ensures
        key_at(s, wide) matches Some((k, rest)) ==> rest.len() < s.len(),
{
    let t = after_blanks(s);
    lemma_after_blanks(s);
    if t.len() > 0 && t[0] == '"' {
        lemma_string_at(t.skip(1), wide);
        if let Some((k, rest)) = string_at(t.skip(1), wide) {
            lemma_after_blanks(rest);
            lemma_after_blanks(after_blanks(rest).skip(1));
        }
    }
}

pub proof fn lemma_numeral_len(s: Seq<char>)
    ensures
        numeral_len(s) <= s.len(),
        forall|i: int| 0 <= i < numeral_len(s) ==> in_numeral(#[trigger] s[i]),
        numeral_len(s) < s.len() ==> !in_numeral(s[numeral_len(s) as int]),
    decreases s.len(),
{
    if s.len() > 0 && in_numeral(s[0]) {
        lemma_numeral_len(s.skip(1));
        assert forall|i: int| 0 <= i < numeral_len(s) implies in_numeral(#[trigger] s[i]) by {
            if i > 0 {
                assert(s.skip(1)[i - 1] == s[i]);
            }
        }
    }
}

pub proof fn lemma_numeral_len_is(s: Seq<char>, n: nat)
    requires
        n <= s.len(),
        forall|i: int| 0 <= i < n ==> in_numeral(#[trigger] s[i]),
        n < s.len() ==> !in_numeral(s[n as int]),
    ensures
        numeral_len(s) == n,
{
    lemma_numeral_len(s);
    if numeral_len(s) < n {
        assert(in_numeral(s[numeral_len(s) as int]));
    }
    if n < numeral_len(s) {
        assert(in_numeral(s[n as int]));
    }
}

/// The rule for a value.
pub proof fn lemma_value_rule(s: Seq<char>, wide: bool)
    ensures
        value_at(s, wide) == ({
            let t = after_blanks(s.skip(1));
            if s.len() == 0 {
                None
            } else if s[0] == '{' {
                object_of(t, members_at(t, wide))
            } else if s[0] == '[' {
                array_of(t, items_at(t, wide))
            } else {
                scalar_at(s, wide)
            }
        }),
{
    reveal(value_at);
    reveal(items_at);
    reveal(members_at);
}

proof fn lemma_items_shorter(s: Seq<char>, wide: bool)
    ensures
        items_at(s, wide) matches Some((a, rest)) ==> rest.len() < s.len(),
    decreases s.len(),
{
    reveal(value_at);
    reveal(items_at);
    reveal(members_at);
    if let Some((v, rest)) = value_at(after_blanks(s), wide) {
        let t = after_blanks(rest);
        if t.len() > 0 && t.len() <= s.len() {
            lemma_items_shorter(t.skip(1), wide);
        }
    }
}

proof fn lemma_members_shorter(s: Seq<char>, wide: bool)
    ensures
        members_at(s, wide) matches Some((kv, rest)) ==> rest.len() < s.len(),
    decreases s.len(),
{
    reveal(value_at);
    reveal(items_at);
    reveal(members_at);
    if let Some((k, u)) = key_at(s, wide) {
        if let Some((v, rest)) = value_at(u, wide) {
            let t = after_blanks(rest);
            if t.len() > 0 && t.len() <= s.len() {
                lemma_members_shorter(t.skip(1), wide);
            }
        }
    }
}

proof fn lemma_number_shorter(s: Seq<char>)
    ensures
        number_at(s) matches Some((v, rest)) ==> rest.len() < s.len(),
{
    lemma_numeral_len(s);
    if numeral_len(s) == 0 {
        let none = octets(s.take(0));
        assert(none.len() == 0);
        assert(number::leading(none) == 0);
    }
}

proof fn lemma_scalar_shorter(s: Seq<char>, wide: bool)
    requires
        s.len() > 0,
    ensures
        scalar_at(s, wide) matches Some((v, rest)) ==> rest.len() < s.len(),
{
    if s[0] == '"' {
        lemma_string_at(s.skip(1), wide);
    } else if s[0] == 't' {
        assert(word_true().len() == 4);
    } else if s[0] == 'f' {
        assert(word_false().len() == 5);
    } else if s[0] == 'n' {
        assert(word_null().len() == 4);
    } else {
        lemma_number_shorter(s);
    }
}

/// A value takes at least one character of the text.
pub proof fn lemma_value_shorter(s: Seq<char>, wide: bool)
    ensures
        value_at(s, wide) matches Some((v, rest)) ==> rest.len() < s.len(),
{
    lemma_value_rule(s, wide);
    if s.len() > 0 {
        let t = after_blanks(s.skip(1));
        lemma_after_blanks(s.skip(1));
        if s[0] == '{' {
            lemma_members_shorter(t, wide);
        } else if s[0] == '[' {
            lemma_items_shorter(t, wide);
        } else {
            lemma_scalar_shorter(s, wide);
        }
    }
}

/// The rule for items.
pub proof fn lemma_items_rule(s: Seq<char>, wide: bool)
    ensures
        items_at(s, wide) == match value_at(after_blanks(s), wide) {
            Some((v, rest)) => {
                let t = after_blanks(rest);
                if t.len() == 0 {
                    None
                } else if t[0] == ',' {
                    after_items(seq![v], items_at(t.skip(1), wide))
                } else if t[0] == ']' {
                    Some((seq![v], t.skip(1)))
                } else {
                    None
                }
            },
            None => None,
        },
        value_at(after_blanks(s), wide) matches Some((v, rest)) ==> after_blanks(rest).len()
            < s.len(),
{
    lemma_after_blanks(s);
    lemma_value_shorter(after_blanks(s), wide);
    if let Some((v, rest)) = value_at(after_blanks(s), wide) {
        lemma_after_blanks(rest);
    }
    reveal(value_at);
    reveal(items_at);
    reveal(members_at);
}

/// The rule for members.
pub proof fn lemma_members_rule(s: Seq<char>, wide: bool)
    ensures
        members_at(s, wide) == match key_at(s, wide) {
            Some((k, u)) => match value_at(u, wide) {
                Some((v, rest)) => {
                    let t = after_blanks(rest);
                    if t.len() == 0 {
                        None
                    } else if t[0] == ',' {
                        after_members(seq![(k, v)], members_at(t.skip(1), wide))
                    } else if t[0] == '}' {
                        Some((seq![(k, v)], t.skip(1)))
                    } else {
                        None
                    }
                },
                None => None,
            },
            None => None,
        },
        key_at(s, wide) matches Some((k, u)) ==> u.len() < s.len() && (value_at(
            u,
            wide,
        ) matches Some((v, rest)) ==> after_blanks(rest).len() < s.len()),
{
    lemma_key_at(s, wide);
    if let Some((k, u)) = key_at(s, wide) {
        lemma_value_shorter(u, wide);
        if let Some((v, rest)) = value_at(u, wide) {
            lemma_after_blanks(rest);
        }
    }
    reveal(value_at);
    reveal(items_at);
    reveal(members_at);
}

// ---------------------------------------------------------------------
// The parser.
// ---------------------------------------------------------------------
/// A reader of a text, at one of its characters.
pub struct Parser<'a> {
    pub b: &'a [char],
    pub i: usize,
    /// Strings may hold characters that are not ASCII as they are.
    pub wide: bool,
}

impl<'a> Parser<'a> {
    pub open spec fn inside(self) -> bool {
        self.i <= self.b@.len()
    }

    /// What is left of the text.
    pub open spec fn rest(self) -> Seq<char> {
        self.b@.skip(self.i as int)
    }

    /// The result of a step that yields a value.
    pub open spec fn yields(self, r: Option<Json>, wanted: Option<(JsonView, Seq<char>)>) -> bool {
        &&& r is Some <==> wanted is Some
        &&& r matches Some(v) ==> wanted == Some((v@, self.rest()))
    }

    fn ws(&mut self)
        requires
            old(self).inside(),
        ensures
            final(self).inside(),
            final(self).b@ == old(self).b@,
            final(self).wide == old(self).wide,
            final(self).rest() == after_blanks(old(self).rest()),
            final(self).i >= old(self).i,
    {
        while self.i < self.b.len() && (self.b[self.i] == ' ' || self.b[self.i] == '\t'
            || self.b[self.i] == '\n' || self.b[self.i] == '\r')
            invariant
                self.inside(),
                self.b@ == old(self).b@,
                self.wide == old(self).wide,
                self.i >= old(self).i,
                after_blanks(self.rest()) == after_blanks(old(self).rest()),
            decreases self.b.len() - self.i,
        {
            proof {
                assert(self.rest()[0] == self.b@[self.i as int]);
                assert(self.rest().skip(1) =~= self.b@.skip(self.i + 1));
            }
            self.i = self.i + 1;
        }
        proof {
            if self.i < self.b@.len() {
                assert(self.rest()[0] == self.b@[self.i as int]);
            }
        }
    }

    fn peek(&self) -> (c: Option<char>)
        requires
            self.inside(),
        ensures
            c == if self.rest().len() > 0 {
                Some(self.rest()[0])
            } else {
                None
            },
    {
        if self.i < self.b.len() {
            Some(self.b[self.i])
        } else {
            None
        }
    }

    /// Step over one character.
    fn step(&mut self)
        requires
            old(self).i < old(self).b@.len(),
        ensures
            final(self).inside(),
            final(self).b@ == old(self).b@,
            final(self).wide == old(self).wide,
            final(self).rest() == old(self).rest().skip(1),
            final(self).i == old(self).i + 1,
    {
        assert(self.rest().skip(1) =~= self.b@.skip(self.i + 1));
        assert(self.i < self.b.len());
        self.i = self.i + 1;
    }

    fn lit(&mut self, word: &[char], v: Json) -> (r: Option<Json>)
        requires
            old(self).inside(),
        ensures
            final(self).inside(),
            final(self).b@ == old(self).b@,
            final(self).wide == old(self).wide,
            final(self).yields(r, word_at(old(self).rest(), word@, v@)),
    {
        if self.b.len() - self.i < word.len() {
            return None;
        }
        let mut k: usize = 0;
        while k < word.len()
            invariant
                k <= word@.len(),
                self.i + word@.len() <= self.b.len(),
                *self == *old(self),
                forall|j: int| 0 <= j < k ==> self.b@[self.i + j] == #[trigger] word@[j],
            decreases word.len() - k,
        {
            if self.b[self.i + k] != word[k] {
                proof {
                    assert(self.rest().take(word@.len() as int)[k as int] == self.b@[self.i + k]);
                }
                return None;
            }
            k = k + 1;
        }
        proof {
            assert(self.rest().take(word@.len() as int) =~= word@);
            assert(self.rest().skip(word@.len() as int) =~= self.b@.skip(self.i + word@.len()));
        }
        self.i = self.i + word.len();
        Some(v)
    }

    fn number(&mut self) -> (r: Option<Json>)
        requires
            old(self).inside(),
        ensures
            final(self).inside(),
            final(self).b@ == old(self).b@,
            final(self).wide == old(self).wide,
            final(self).yields(r, number_at(old(self).rest())),
    {
        let start: usize = self.i;
        let mut lexeme: Vec<u8> = Vec::new();
        while self.i < self.b.len() && (('0' <= self.b[self.i] && self.b[self.i] <= '9')
            || self.b[self.i] == '.' || self.b[self.i] == 'e' || self.b[self.i] == 'E'
            || self.b[self.i] == '+' || self.b[self.i] == '-')
            invariant
                self.inside(),
                self.b@ == old(self).b@,
                self.wide == old(self).wide,
                start == old(self).i,
                self.i >= start,
                forall|k: int| start <= k < self.i ==> in_numeral(#[trigger] self.b@[k]),
                lexeme@ == octets(self.b@.subrange(start as int, self.i as int)),
            decreases self.b.len() - self.i,
        {
            lexeme.push(self.b[self.i] as u8);
            self.i = self.i + 1;
            assert(lexeme@ =~= octets(self.b@.subrange(start as int, self.i as int)));
        }
        proof {
            let s = old(self).rest();
            let n = self.i - start;
            assert forall|k: int| 0 <= k < n implies in_numeral(#[trigger] s[k]) by {
                assert(s[k] == self.b@[start + k]);
            }
            lemma_numeral_len_is(s, n as nat);
            assert(self.b@.subrange(start as int, self.i as int) =~= s.take(n));
            assert(self.rest() =~= s.skip(n));
        }
        if !is_well_formed(lexeme.as_slice()) {
            return None;
        }
        match parse_number(lexeme.as_slice()) {
            Some(v) => Some(Json::Num(v)),
            None => None,
        }
    }

    /// The number that the four hexadecimal digits at `k` from here spell.
    fn code_unit(&self, k: usize) -> (r: Option<u32>)
        requires
            self.inside(),
            k <= self.rest().len(),
        ensures
            r is Some <==> code_unit(self.rest().skip(k as int)) is Some,
            r matches Some(v) ==> v < 0x1_0000 && code_unit(self.rest().skip(k as int)) == Some(
                v as nat,
            ),
    {
        let at: usize = self.i + k;
        assert(self.rest().skip(k as int) =~= self.b@.skip(at as int));
        if self.b.len() - at < 4 {
            return None;
        }
        match (
            digit_of(self.b[at], 16),
            digit_of(self.b[at + 1], 16),
            digit_of(self.b[at + 2], 16),
            digit_of(self.b[at + 3], 16),
        ) {
            (Some(w), Some(x), Some(y), Some(z)) => Some(
                4096 * w as u32 + 256 * x as u32 + 16 * y as u32 + z as u32,
            ),
            _ => None,
        }
    }

    /// The character of a `\uXXXX` escape, or of a pair of them.
    fn unicode_char(&mut self) -> (r: Option<char>)
        requires
            old(self).i + 2 <= old(self).b@.len(),
        ensures
            final(self).inside(),
            final(self).b@ == old(self).b@,
            final(self).wide == old(self).wide,
            r is Some <==> unicode_char(old(self).rest()) is Some,
            r matches Some(c) ==> (unicode_char(old(self).rest()) matches Some((x, n)) && x == c
                && final(self).rest() == old(self).rest().skip(n) && final(self).i == old(self).i
                + n),
    {
        let v: u32 = match self.code_unit(2) {
            Some(v) => v,
            None => return None,
        };
        if v < 0xD800 || 0xE000 <= v {
            assert(self.rest().skip(6) =~= self.b@.skip(self.i + 6));
            assert(self.i + 6 <= self.b.len());
            self.i = self.i + 6;
            return char::from_u32(v);
        }
        if v >= 0xDC00 || self.b.len() - self.i < 8 || self.b[self.i + 6] != '\\'
            || self.b[self.i + 7] != 'u' {
            return None;  // half a pair
        }
        let w: u32 = match self.code_unit(8) {
            Some(w) => w,
            None => return None,
        };
        if w < 0xDC00 || 0xE000 <= w {
            return None;
        }
        assert(self.rest().skip(12) =~= self.b@.skip(self.i + 12));
        assert(self.i + 12 <= self.b.len());
        self.i = self.i + 12;
        char::from_u32(0x1_0000 + (v - 0xD800) * 0x400 + (w - 0xDC00))
    }

    /// Read a string, from its opening quote to behind the closing one.
    pub fn string(&mut self) -> (r: Option<String>)
        requires
            old(self).i < old(self).b@.len(),
        ensures
            final(self).inside(),
            final(self).b@ == old(self).b@,
            final(self).wide == old(self).wide,
            r is Some <==> string_at(old(self).rest().skip(1), old(self).wide) is Some,
            r matches Some(s) ==> string_at(old(self).rest().skip(1), old(self).wide) == Some(
                (s@, final(self).rest()),
            ),
    {
        self.step();  // opening quote
        let ghost start = self.rest();
        let mut s = String::new();
        assert(match string_at(start, self.wide) {
            Some((t, rest)) => s@ + t =~= t,
            None => true,
        });
        loop
            invariant
                self.inside(),
                self.b@ == old(self).b@,
                self.wide == old(self).wide,
                start == old(self).rest().skip(1),
                string_at(start, self.wide) == (match string_at(self.rest(), self.wide) {
                    Some((t, rest)) => Some((s@ + t, rest)),
                    None => None,
                }),
            decreases self.b@.len() - self.i,
        {
            let c: char = match self.peek() {
                Some(c) => c,
                None => return None,
            };
            if c == '"' {
                self.step();
                assert(s@ + Seq::empty() =~= s@);
                return Some(s);
            }
            let ghost here = self.rest();
            let ghost before = s@;
            if c == '\\' {
                if self.b.len() - self.i < 2 {
                    return None;
                }
                let e: char = self.b[self.i + 1];
                assert(here[1] == e);
                if e == 'u' {
                    let ch: char = match self.unicode_char() {
                        Some(ch) => ch,
                        None => return None,
                    };
                    s.push(ch);
                } else {
                    let ch: char = if e == '"' {
                        '"'
                    } else if e == '\\' {
                        '\\'
                    } else if e == '/' {
                        '/'
                    } else if e == 'n' {
                        '\n'
                    } else if e == 't' {
                        '\t'
                    } else if e == 'r' {
                        '\r'
                    } else {
                        return None;  // other escapes are unused in our files
                    };
                    assert(here.skip(1).skip(1) =~= here.skip(2));
                    self.step();
                    self.step();
                    s.push(ch);
                }
            } else if c >= ' ' && (self.wide || c as u32 <= 0x7f) {
                self.step();
                s.push(c);
            } else {
                return None;
            }
            proof {
                if let Some((t, rest)) = string_at(self.rest(), self.wide) {
                    assert(before + (seq![s@.last()] + t) =~= s@ + t);
                }
            }
        }
    }

    fn value(&mut self) -> (r: Option<Json>)
        requires
            old(self).inside(),
        ensures
            final(self).inside(),
            final(self).b@ == old(self).b@,
            final(self).wide == old(self).wide,
            final(self).yields(r, value_at(old(self).rest(), old(self).wide)),
        decreases old(self).rest().len(), 1int,
    {
        proof {
            lemma_value_rule(self.rest(), self.wide);
        }
        let c: char = match self.peek() {
            Some(c) => c,
            None => return None,
        };
        if c == '{' {
            self.object()
        } else if c == '[' {
            self.array()
        } else if c == '"' {
            match self.string() {
                Some(s) => Some(Json::Str(s)),
                None => None,
            }
        } else if c == 't' {
            let word: [char; 4] = ['t', 'r', 'u', 'e'];
            assert(word@ =~= word_true());
            self.lit(word.as_slice(), Json::Bool(true))
        } else if c == 'f' {
            let word: [char; 5] = ['f', 'a', 'l', 's', 'e'];
            assert(word@ =~= word_false());
            self.lit(word.as_slice(), Json::Bool(false))
        } else if c == 'n' {
            let word: [char; 4] = ['n', 'u', 'l', 'l'];
            assert(word@ =~= word_null());
            self.lit(word.as_slice(), Json::Null)
        } else {
            self.number()
        }
    }

    fn array(&mut self) -> (r: Option<Json>)
        requires
            old(self).i < old(self).b@.len(),
            old(self).rest()[0] == '[',
        ensures
            final(self).inside(),
            final(self).b@ == old(self).b@,
            final(self).wide == old(self).wide,
            final(self).yields(r, value_at(old(self).rest(), old(self).wide)),
        decreases old(self).rest().len(), 0int,
    {
        proof {
            lemma_value_rule(self.rest(), self.wide);
        }
        self.step();  // '['
        let mut a: Vec<Json> = Vec::new();
        self.ws();
        if self.peek() == Some(']') {
            self.step();
            return Some(Json::Arr(a));
        }
        let ghost start = self.rest();
        assert(match items_at(start, self.wide) {
            Some((t, rest)) => Json::meanings(a@) + t =~= t,
            None => true,
        });
        loop
            invariant
                self.inside(),
                self.b@ == old(self).b@,
                self.wide == old(self).wide,
                self.i > old(self).i,
                items_at(start, self.wide) == after_items(
                    Json::meanings(a@),
                    items_at(self.rest(), self.wide),
                ),
                value_at(old(self).rest(), old(self).wide) == (match items_at(start, self.wide) {
                    Some((a, rest)) => Some((JsonView::Arr(a), rest)),
                    None => None,
                }),
            decreases self.b@.len() - self.i,
        {
            let ghost here = self.rest();
            proof {
                lemma_items_rule(here, self.wide);
                lemma_after_blanks(here);
            }
            self.ws();
            let v = match self.value() {
                Some(v) => v,
                None => return None,
            };
            self.ws();
            let ghost before = Json::meanings(a@);
            let ghost read = a@;
            let ghost said = v@;
            a.push(v);
            assert(Json::meanings(a@) =~= before.push(said)) by {
                assert(a@.drop_last() =~= read);
            }
            match self.peek() {
                Some(c) => if c == ',' {
                    self.step();
                    proof {
                        if let Some((more, rest)) = items_at(self.rest(), self.wide) {
                            assert(before + (seq![said] + more) =~= before.push(said) + more);
                        }
                    }
                } else if c == ']' {
                    self.step();
                    proof {
                        assert(before + seq![said] =~= before.push(said));
                    }
                    return Some(Json::Arr(a));
                } else {
                    return None;
                },
                None => return None,
            }
        }
    }

    fn object(&mut self) -> (r: Option<Json>)
        requires
            old(self).i < old(self).b@.len(),
            old(self).rest()[0] == '{',
        ensures
            final(self).inside(),
            final(self).b@ == old(self).b@,
            final(self).wide == old(self).wide,
            final(self).yields(r, value_at(old(self).rest(), old(self).wide)),
        decreases old(self).rest().len(), 0int,
    {
        proof {
            lemma_value_rule(self.rest(), self.wide);
        }
        self.step();  // '{'
        let mut kv: Vec<(String, Json)> = Vec::new();
        self.ws();
        if self.peek() == Some('}') {
            self.step();
            return Some(Json::Obj(kv));
        }
        let ghost start = self.rest();
        assert(match members_at(start, self.wide) {
            Some((t, rest)) => Json::members(kv@) + t =~= t,
            None => true,
        });
        loop
            invariant
                self.inside(),
                self.b@ == old(self).b@,
                self.wide == old(self).wide,
                self.i > old(self).i,
                members_at(start, self.wide) == after_members(
                    Json::members(kv@),
                    members_at(self.rest(), self.wide),
                ),
                value_at(old(self).rest(), old(self).wide) == (match members_at(start, self.wide) {
                    Some((kv, rest)) => Some((JsonView::Obj(kv), rest)),
                    None => None,
                }),
            decreases self.b@.len() - self.i,
        {
            let ghost here = self.rest();
            proof {
                lemma_members_rule(here, self.wide);
            }
            let k = match self.key() {
                Some(k) => k,
                None => return None,
            };
            let v = match self.value() {
                Some(v) => v,
                None => return None,
            };
            self.ws();
            let ghost before = Json::members(kv@);
            let ghost read = kv@;
            let ghost said = (k@, v@);
            kv.push((k, v));
            assert(Json::members(kv@) =~= before.push(said)) by {
                assert(kv@.drop_last() =~= read);
            }
            match self.peek() {
                Some(c) => if c == ',' {
                    self.step();
                    proof {
                        if let Some((more, rest)) = members_at(self.rest(), self.wide) {
                            assert(before + (seq![said] + more) =~= before.push(said) + more);
                        }
                    }
                } else if c == '}' {
                    self.step();
                    proof {
                        assert(before + seq![said] =~= before.push(said));
                    }
                    return Some(Json::Obj(kv));
                } else {
                    return None;
                },
                None => return None,
            }
        }
    }

    fn key(&mut self) -> (r: Option<String>)
        requires
            old(self).inside(),
        ensures
            final(self).inside(),
            final(self).b@ == old(self).b@,
            final(self).wide == old(self).wide,
            r is Some <==> key_at(old(self).rest(), old(self).wide) is Some,
            r matches Some(k) ==> key_at(old(self).rest(), old(self).wide) == Some(
                (k@, final(self).rest()),
            ),
    {
        self.ws();
        if self.peek() != Some('"') {
            return None;
        }
        let k = match self.string() {
            Some(k) => k,
            None => return None,
        };
        self.ws();
        if self.peek() != Some(':') {
            return None;
        }
        self.step();
        self.ws();
        Some(k)
    }
}

impl Json {
    /// Parse a complete JSON document; `None` on any malformation or
    /// trailing garbage. ASCII text only.
    pub fn parse(text: &str) -> (r: Option<Json>)
        ensures
            r is Some <==> document(text@, false) is Some,
            r matches Some(v) ==> document(text@, false) == Some(v@),
    {
        Json::read(text, false)
    }

    /// Parse a complete document, whose strings may hold any text where the
    /// reader is wide.
    pub(crate) fn read(text: &str, wide: bool) -> (r: Option<Json>)
        ensures
            r is Some <==> document(text@, wide) is Some,
            r matches Some(v) ==> document(text@, wide) == Some(v@),
    {
        broadcast use vstd::string::axiom_spec_iter;

        let mut chars: Vec<char> = Vec::new();
        for c in it: text.chars()
            invariant
                it.seq() == text@,
                chars@ == text@.take(it.index() as int),
        {
            chars.push(c);
            assert(chars@ =~= text@.take(it.index() + 1));
        }
        assert(text@.take(text@.len() as int) =~= text@);
        let mut p = Parser { b: chars.as_slice(), i: 0, wide };
        assert(p.rest() =~= p.b@);
        p.ws();
        let v = match p.value() {
            Some(v) => v,
            None => return None,
        };
        p.ws();
        if p.i == p.b.len() {
            Some(v)
        } else {
            None
        }
    }
}

// ---------------------------------------------------------------------
// Builders that keep the site-store serialization readable.
// ---------------------------------------------------------------------
/// An object of members in their order.
pub fn obj(pairs: Vec<(&str, Json)>) -> (j: Json)
    ensures
        j@ == JsonView::Obj(
            Seq::new(pairs@.len(), |i: int| (pairs@[i].0@, pairs@[i].1@)),
        ),
{
    let ghost said = Seq::new(pairs@.len(), |i: int| (pairs@[i].0@, pairs@[i].1@));
    let mut kv: Vec<(String, Json)> = Vec::new();
    for p in it: pairs
        invariant
            it.seq() == pairs@,
            kv@.len() == it.index(),
            forall|i: int|
                0 <= i < kv@.len() ==> (#[trigger] kv@[i]).0@ == pairs@[i].0@ && kv@[i].1@
                    == pairs@[i].1@,
    {
        let (k, v) = p;
        kv.push((k.to_owned(), v));
    }
    proof {
        lemma_members(kv@);
        assert(Json::members(kv@) =~= said);
    }
    Json::Obj(kv)
}

pub fn num(n: Binary64) -> (j: Json)
    ensures
        j@ == JsonView::Num(n),
{
    Json::Num(n)
}

pub fn str(s: &str) -> (j: Json)
    ensures
        j@ == JsonView::Str(s@),
{
    Json::Str(s.to_owned())
}

} // verus!
