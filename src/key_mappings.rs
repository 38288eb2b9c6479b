use vstd::prelude::*;

use crate::text::{lower_of, lowercase, replace_str, replaced};
use vstd::utf8::{encode_utf8, is_ascii_chars, is_ascii_chars_encode_utf8};

verus! {

/// Raw key codes indexed by LED index: the code at position `i` lights LED `i`.
#[derive(Clone, Debug)]
pub struct KeyMapping(Vec<u16>);

impl View for KeyMapping {
    type V = Seq<u16>;

    closed spec fn view(&self) -> Seq<u16> {
        self.0@
    }
}

/// The first index at or after `j` whose code is `key`.
pub open spec fn find_from(m: Seq<u16>, key: u16, j: int) -> Option<int>
    decreases m.len() - j,
{
    if j < 0 || j >= m.len() {
        None
    } else if m[j] == key {
        Some(j)
    } else {
        find_from(m, key, j + 1)
    }
}

/// The LED that `key` lights: the lowest index holding it, if any.
pub open spec fn led_of(m: Seq<u16>, key: u16) -> Option<int> {
    find_from(m, key, 0)
}

proof fn lemma_find_from(m: Seq<u16>, key: u16, j: int)
    requires
        0 <= j,
    ensures
        match find_from(m, key, j) {
            Some(i) => j <= i < m.len() && m[i] == key && forall|k: int| j <= k < i ==> m[k] != key,
            None => forall|k: int| j <= k < m.len() ==> m[k] != key,
        },
    decreases m.len() - j,
{
    if j < m.len() && m[j] != key {
        lemma_find_from(m, key, j + 1);
    }
}

/// Lookup finds the lowest matching index, and nothing for a code absent from the mapping.
pub proof fn lemma_lookup_first_match(m: Seq<u16>, key: u16)
    ensures
        match led_of(m, key) {
            Some(i) => 0 <= i < m.len() && m[i] == key && forall|k: int| 0 <= k < i ==> m[k] != key,
            None => forall|k: int| 0 <= k < m.len() ==> m[k] != key,
        },
{
    lemma_find_from(m, key, 0);
}

pub open spec fn newline() -> u8 {
    10
}

/// The lines of a text: its bytes split at every newline. There is always at
/// least one line; a text that ends in a newline ends in an empty line.
pub open spec fn lines_of(b: Seq<u8>) -> Seq<Seq<u8>>
    decreases b.len(),
{
    if b.len() == 0 {
        seq![Seq::empty()]
    } else {
        let p = lines_of(b.drop_last());
        if b.last() == newline() {
            p.push(Seq::empty())
        } else {
            p.update(p.len() - 1, p.last().push(b.last()))
        }
    }
}

/// The lines that hold codes: a single blank line at the end is tolerated.
pub open spec fn mapping_lines(b: Seq<u8>) -> Seq<Seq<u8>> {
    let ls = lines_of(b);
    if ls.len() > 1 && ls.last().len() == 0 {
        ls.drop_last()
    } else {
        ls
    }
}

pub open spec fn is_digit(c: u8) -> bool {
    48 <= c <= 57
}

pub open spec fn all_digits(d: Seq<u8>) -> bool {
    forall|i: int| 0 <= i < d.len() ==> is_digit(#[trigger] d[i])
}

/// The number that a run of decimal digits spells.
pub open spec fn dec_value(d: Seq<u8>) -> int
    decreases d.len(),
{
    if d.len() == 0 {
        0
    } else {
        dec_value(d.drop_last()) * 10 + (d.last() - 48)
    }
}

/// A line without its optional leading `+`.
pub open spec fn unsigned_part(line: Seq<u8>) -> Seq<u8> {
    if line.len() > 1 && line[0] == 43 {
        line.drop_first()
    } else {
        line
    }
}

/// A line read as an unsigned 16-bit decimal number: an optional `+`, then one
/// or more digits whose value is at most 65535.
pub open spec fn parse_code(line: Seq<u8>) -> Option<u16> {
    let d = unsigned_part(line);
    if d.len() > 0 && all_digits(d) && dec_value(d) <= 65535 {
        Some(dec_value(d) as u16)
    } else {
        None
    }
}

/// A mapping file's text read as codes, one per line; `None` when a line is not a code.
pub open spec fn parse_mapping(b: Seq<u8>) -> Option<Seq<u16>> {
    let ls = mapping_lines(b);
    if forall|i: int| 0 <= i < ls.len() ==> (#[trigger] parse_code(ls[i])) is Some {
        Some(Seq::new(ls.len(), |i: int| parse_code(ls[i])->0))
    } else {
        None
    }
}

/// The decimal digits of `n`, most significant first, without leading zeros.
pub open spec fn dec_bytes(n: nat) -> Seq<u8>
    decreases n,
{
    if n < 10 {
        seq![(48 + n) as u8]
    } else {
        dec_bytes(n / 10).push((48 + n % 10) as u8)
    }
}

/// A mapping written out: one decimal code per line, joined by newlines.
pub open spec fn render_bytes(m: Seq<u16>) -> Seq<u8>
    decreases m.len(),
{
    if m.len() == 0 {
        Seq::empty()
    } else if m.len() == 1 {
        dec_bytes(m[0] as nat)
    } else {
        render_bytes(m.drop_last()) + seq![newline()] + dec_bytes(m.last() as nat)
    }
}

/// Bytes below 128 read as characters.
pub open spec fn ascii_text(b: Seq<u8>) -> Seq<char> {
    Seq::new(b.len(), |i: int| b[i] as char)
}

proof fn lemma_lines_nonempty(b: Seq<u8>)
    ensures
        lines_of(b).len() >= 1,
    decreases b.len(),
{
    if b.len() > 0 {
        lemma_lines_nonempty(b.drop_last());
    }
}

proof fn lemma_lines_extend(a: Seq<u8>, c: Seq<u8>)
    requires
        forall|i: int| 0 <= i < c.len() ==> c[i] != newline(),
    ensures
        lines_of(a + c) == lines_of(a).update(
            lines_of(a).len() - 1,
            lines_of(a).last() + c,
        ),
    decreases c.len(),
{
    lemma_lines_nonempty(a);
    if c.len() == 0 {
        assert(a + c =~= a);
        assert(lines_of(a).last() + c =~= lines_of(a).last());
        assert(lines_of(a).update(lines_of(a).len() - 1, lines_of(a).last()) =~= lines_of(a));
    } else {
        let c2 = c.drop_last();
        lemma_lines_extend(a, c2);
        assert((a + c).drop_last() =~= a + c2);
        assert((a + c).last() == c.last());
        assert(lines_of(a).last() + c =~= (lines_of(a).last() + c2).push(c.last()));
        let p = lines_of(a + c2);
        assert(p.last() == lines_of(a).last() + c2);
        assert(lines_of(a + c) =~= lines_of(a).update(lines_of(a).len() - 1, lines_of(a).last() + c));
    }
}

proof fn lemma_dec_bytes(n: nat)
    ensures
        dec_bytes(n).len() >= 1,
        all_digits(dec_bytes(n)),
        dec_value(dec_bytes(n)) == n,
    decreases n,
{
    if n < 10 {
        assert(dec_bytes(n).drop_last() =~= Seq::<u8>::empty());
        assert(dec_value(Seq::<u8>::empty()) == 0);
        assert(dec_bytes(n).last() - 48 == n);
    } else {
        lemma_dec_bytes(n / 10);
        let d = dec_bytes(n);
        assert(d.drop_last() =~= dec_bytes(n / 10));
        assert((n / 10) * 10 + n % 10 == n) by (nonlinear_arith);
        assert(d.last() - 48 == n % 10);
        assert(dec_value(d) == dec_value(dec_bytes(n / 10)) * 10 + n % 10);
        assert(all_digits(d)) by {
            assert forall|i: int| 0 <= i < d.len() implies is_digit(#[trigger] d[i]) by {
                if i < d.len() - 1 {
                    assert(d[i] == dec_bytes(n / 10)[i]);
                }
            }
        }
    }
}

proof fn lemma_parse_dec(n: u16)
    ensures
        parse_code(dec_bytes(n as nat)) == Some(n),
{
    lemma_dec_bytes(n as nat);
    let d = dec_bytes(n as nat);
    assert(is_digit(d[0]));
    assert(unsigned_part(d) == d);
}

proof fn lemma_lines_of_render(m: Seq<u16>)
    requires
        m.len() >= 1,
    ensures
        lines_of(render_bytes(m)) == Seq::new(m.len(), |i: int| dec_bytes(m[i] as nat)),
    decreases m.len(),
{
    let last = dec_bytes(m.last() as nat);
    lemma_dec_bytes(m.last() as nat);
    assert forall|i: int| 0 <= i < last.len() implies last[i] != newline() by {
        assert(is_digit(last[i]));
    }
    if m.len() == 1 {
        lemma_lines_extend(Seq::empty(), last);
        assert(Seq::<u8>::empty() + last =~= last);
        assert(lines_of(Seq::<u8>::empty()) =~= seq![Seq::<u8>::empty()]);
        assert(Seq::<u8>::empty() + last =~= last);
        assert(lines_of(render_bytes(m)) =~= Seq::new(m.len(), |i: int| dec_bytes(m[i] as nat)));
    } else {
        let front = render_bytes(m.drop_last());
        lemma_lines_of_render(m.drop_last());
        let a = front + seq![newline()];
        assert(a.drop_last() =~= front);
        lemma_lines_nonempty(front);
        assert(lines_of(a) == lines_of(front).push(Seq::empty()));
        lemma_lines_extend(a, last);
        assert(Seq::<u8>::empty() + last =~= last);
        assert(render_bytes(m) == a + last);
        assert(lines_of(render_bytes(m)) =~= Seq::new(m.len(), |i: int| dec_bytes(m[i] as nat)));
    }
}

proof fn lemma_render_ascii(m: Seq<u16>)
    ensures
        forall|i: int| 0 <= i < render_bytes(m).len() ==> #[trigger] render_bytes(m)[i] < 128,
    decreases m.len(),
{
    if m.len() >= 1 {
        lemma_dec_bytes(m.last() as nat);
        let last = dec_bytes(m.last() as nat);
        assert forall|i: int| 0 <= i < last.len() implies last[i] < 128 by {
            assert(is_digit(last[i]));
        }
        if m.len() > 1 {
            lemma_render_ascii(m.drop_last());
            let front = render_bytes(m.drop_last());
            let r = render_bytes(m);
            assert forall|i: int| 0 <= i < r.len() implies #[trigger] r[i] < 128 by {
                if i < front.len() {
                    assert(r[i] == front[i]);
                } else if i == front.len() {
                    assert(r[i] == newline());
                } else {
                    assert(r[i] == last[i - front.len() - 1]);
                }
            }
        }
    }
}

proof fn lemma_ascii_encode(b: Seq<u8>)
    requires
        forall|i: int| 0 <= i < b.len() ==> #[trigger] b[i] < 128,
    ensures
        encode_utf8(ascii_text(b)) == b,
{
    let t = ascii_text(b);
    assert(is_ascii_chars(t)) by {
        assert forall|i: int| 0 <= i < t.len() implies '\0' <= #[trigger] t[i] <= '\u{7f}' by {
            assert(b[i] < 128);
        }
    }
    is_ascii_chars_encode_utf8(t);
    assert forall|i: int| 0 <= i < b.len() implies encode_utf8(t)[i] == b[i] by {
        assert(t[i] as u8 == encode_utf8(t)[i]);
    }
    assert(encode_utf8(t) =~= b);
}

/// Writing a non-empty mapping out and reading the text back gives the same mapping.
pub proof fn lemma_round_trip(m: Seq<u16>)
    requires
        m.len() >= 1,
    ensures
        parse_mapping(encode_utf8(ascii_text(render_bytes(m)))) == Some(m),
{
    lemma_render_ascii(m);
    lemma_ascii_encode(render_bytes(m));
    lemma_lines_of_render(m);
    let ls = lines_of(render_bytes(m));
    lemma_dec_bytes(m.last() as nat);
    assert(ls.last().len() >= 1);
    assert(mapping_lines(render_bytes(m)) == ls);
    assert forall|i: int| 0 <= i < ls.len() implies (#[trigger] parse_code(ls[i])) == Some(m[i]) by {
        lemma_parse_dec(m[i]);
    }
    assert(Seq::new(ls.len(), |i: int| parse_code(ls[i])->0) =~= m);
}

proof fn lemma_dec_nonneg(d: Seq<u8>)
    requires
        all_digits(d),
    ensures
        dec_value(d) >= 0,
    decreases d.len(),
{
    if d.len() > 0 {
        assert(all_digits(d.drop_last())) by {
            assert forall|i: int| 0 <= i < d.len() - 1 implies is_digit(#[trigger] d.drop_last()[i]) by {
                assert(d.drop_last()[i] == d[i]);
            }
        }
        lemma_dec_nonneg(d.drop_last());
        assert(is_digit(d[d.len() - 1]));
    }
}

proof fn lemma_dec_mono(d: Seq<u8>, k: int)
    requires
        all_digits(d),
        0 <= k <= d.len(),
    ensures
        dec_value(d.take(k)) <= dec_value(d),
    decreases d.len(),
{
    if k == d.len() {
        assert(d.take(k) =~= d);
    } else {
        let dl = d.drop_last();
        assert(all_digits(dl)) by {
            assert forall|i: int| 0 <= i < dl.len() implies is_digit(#[trigger] dl[i]) by {
                assert(dl[i] == d[i]);
            }
        }
        lemma_dec_mono(dl, k);
        lemma_dec_nonneg(dl);
        assert(dl.take(k) =~= d.take(k));
        assert(is_digit(d[d.len() - 1]));
    }
}

/// Reads the bytes `b[start..end]` as one code.
fn parse_code_at(b: &[u8], start: usize, end: usize) -> (r: Option<u16>)
    requires
        start <= end <= b@.len(),
    ensures
        r == parse_code(b@.subrange(start as int, end as int)),
{
    let ghost line = b@.subrange(start as int, end as int);
    let mut s: usize = start;
    if end - start > 1 && b[start] == 43 {
        s = start + 1;
    }
    assert(unsigned_part(line) =~= b@.subrange(s as int, end as int));
    if s == end {
        return None;
    }
    let ghost d = b@.subrange(s as int, end as int);
    let mut v: u32 = 0;
    let mut i: usize = s;
    while i < end
        invariant
            s <= i <= end <= b@.len(),
            d == b@.subrange(s as int, end as int),
            unsigned_part(b@.subrange(start as int, end as int)) == d,
            d.len() > 0,
            v as int == dec_value(b@.subrange(s as int, i as int)),
            all_digits(b@.subrange(s as int, i as int)),
            v <= 65535,
        decreases end - i,
    {
        let c = b[i];
        if c < 48 || c > 57 {
            assert(d[i - s] == c);
            assert(!is_digit(d[i - s]));
            return None;
        }
        let ghost prev = b@.subrange(s as int, i as int);
        let ghost next = b@.subrange(s as int, i + 1);
        assert(next.drop_last() =~= prev);
        assert(next.last() == c);
        v = v * 10 + (c - 48) as u32;
        assert(all_digits(next)) by {
            assert forall|j: int| 0 <= j < next.len() implies is_digit(#[trigger] next[j]) by {
                if j < prev.len() {
                    assert(next[j] == prev[j]);
                }
            }
        }
        if v > 65535 {
            proof {
                if all_digits(d) {
                    lemma_dec_mono(d, i + 1 - s);
                    assert(d.take(i + 1 - s) =~= next);
                }
            }
            return None;
        }
        i = i + 1;
    }
    assert(b@.subrange(s as int, i as int) =~= d);
    Some(v as u16)
}

fn push_digit(out: &mut String, d: u16)
    requires
        d < 10,
    ensures
        final(out)@ == old(out)@ + ascii_text(seq![(48 + d) as u8]),
{
    match d {
        0 => {
            out.append("0");
            proof { reveal_strlit("0"); }
        },
        1 => {
            out.append("1");
            proof { reveal_strlit("1"); }
        },
        2 => {
            out.append("2");
            proof { reveal_strlit("2"); }
        },
        3 => {
            out.append("3");
            proof { reveal_strlit("3"); }
        },
        4 => {
            out.append("4");
            proof { reveal_strlit("4"); }
        },
        5 => {
            out.append("5");
            proof { reveal_strlit("5"); }
        },
        6 => {
            out.append("6");
            proof { reveal_strlit("6"); }
        },
        7 => {
            out.append("7");
            proof { reveal_strlit("7"); }
        },
        8 => {
            out.append("8");
            proof { reveal_strlit("8"); }
        },
        _ => {
            out.append("9");
            proof { reveal_strlit("9"); }
        },
    }
    assert(ascii_text(seq![(48 + d) as u8]) =~= seq![((48 + d) as u8) as char]);
}

fn push_decimal(out: &mut String, n: u16)
    ensures
        final(out)@ == old(out)@ + ascii_text(dec_bytes(n as nat)),
    decreases n,
{
    if n >= 10 {
        push_decimal(out, n / 10);
        push_digit(out, n % 10);
        assert(ascii_text(dec_bytes((n / 10) as nat)) + ascii_text(seq![(48 + n % 10) as u8])
            =~= ascii_text(dec_bytes(n as nat)));
    } else {
        push_digit(out, n);
        assert(seq![(48 + n) as u8] =~= dec_bytes(n as nat));
    }
}

impl KeyMapping {
    /// Reads a mapping file: one unsigned 16-bit decimal code per line, in LED
    /// order; a single blank line at the end is tolerated. `None` when any
    /// line is not such a code.
    pub fn parse_from_file(file_contents: String) -> (r: Option<KeyMapping>)
        ensures
            match r {
                Some(m) => parse_mapping(encode_utf8(file_contents@)) == Some(m@),
                None => parse_mapping(encode_utf8(file_contents@)) is None,
            },
    {
        let bytes = file_contents.as_str().as_bytes();
        let ghost b = bytes@;
        assert(b == encode_utf8(file_contents@));
        let n = bytes.len();
        let mut vals: Vec<u16> = Vec::new();
        let mut ok = true;
        let mut start: usize = 0;
        let mut i: usize = 0;
        let ghost mut done: Seq<Seq<u8>> = Seq::empty();
        assert(b.take(0) =~= Seq::<u8>::empty());
        assert(b.subrange(0, 0) =~= Seq::<u8>::empty());
        assert(lines_of(b.take(0)) =~= done.push(b.subrange(0, 0)));
        while i < n
            invariant
                start <= i <= n,
                n == b.len(),
                (start == 0) == (done.len() == 0),
                b == bytes@,
                lines_of(b.take(i as int)) == done.push(b.subrange(start as int, i as int)),
                ok ==> vals@ == Seq::new(done.len(), |j: int| parse_code(done[j])->0),
                ok ==> forall|j: int| 0 <= j < done.len() ==> (#[trigger] parse_code(done[j])) is Some,
                !ok ==> exists|j: int| 0 <= j < done.len() && (#[trigger] parse_code(done[j])) is None,
            decreases n - i,
        {
            let ghost cur = b.subrange(start as int, i as int);
            assert(b.take(i + 1).drop_last() =~= b.take(i as int));
            assert(b.take(i + 1).last() == b[i as int]);
            if bytes[i] == 10 {
                if ok {
                    match parse_code_at(bytes, start, i) {
                        Some(c) => {
                            vals.push(c);
                        },
                        None => {
                            ok = false;
                        },
                    }
                }
                proof {
                    let old_done = done;
                    done = done.push(cur);
                    if ok {
                        assert(vals@ =~= Seq::new(done.len(), |j: int| parse_code(done[j])->0));
                    } else if parse_code(cur) is None {
                        assert(parse_code(done[old_done.len() as int]) is None);
                    } else {
                        let w = choose|j: int| 0 <= j < old_done.len() && (#[trigger] parse_code(old_done[j])) is None;
                        assert(parse_code(done[w]) is None);
                    }
                }
                start = i + 1;
                assert(b.subrange(start as int, start as int) =~= Seq::<u8>::empty());
            } else {
                assert(b.subrange(start as int, i + 1) =~= cur.push(b[i as int]));
                assert(done.push(cur).update(done.len() as int, cur.push(b[i as int])) =~= done.push(cur.push(b[i as int])));
            }
            i = i + 1;
        }
        assert(b.take(n as int) =~= b);
        let ghost ls = mapping_lines(b);
        if start == n && start > 0 {
            assert(ls == done) by {
                assert(b.subrange(start as int, n as int) =~= Seq::<u8>::empty());
                assert(done.push(Seq::<u8>::empty()).drop_last() =~= done);
            }
            if ok {
                return Some(KeyMapping(vals));
            } else {
                return None;
            }
        }
        assert(b.subrange(start as int, n as int).len() > 0 || done.len() == 0);
        assert(ls == done.push(b.subrange(start as int, n as int)));
        if !ok {
            let ghost w = choose|j: int| 0 <= j < done.len() && (#[trigger] parse_code(done[j])) is None;
            assert(parse_code(ls[w]) is None);
            return None;
        }
        match parse_code_at(bytes, start, n) {
            Some(c) => {
                vals.push(c);
                assert(vals@ =~= Seq::new(ls.len(), |j: int| parse_code(ls[j])->0));
                Some(KeyMapping(vals))
            },
            None => {
                assert(parse_code(ls[done.len() as int]) is None);
                None
            },
        }
    }

    /// Writes the mapping out: one decimal code per line, in LED order, joined
    /// by newlines, with no newline at the end.
    pub fn as_file_string(&self) -> (r: String)
        ensures
            r@ == ascii_text(render_bytes(self@)),
    {
        let mut out = String::new();
        let mut i: usize = 0;
        assert(self.0@.take(0) =~= Seq::<u16>::empty());
        assert(ascii_text(Seq::<u8>::empty()) =~= Seq::<char>::empty());
        while i < self.0.len()
            invariant
                i <= self.0@.len(),
                out@ == ascii_text(render_bytes(self.0@.take(i as int))),
            decreases self.0@.len() - i,
        {
            let ghost before = out@;
            let ghost t = self.0@.take(i + 1);
            assert(t.drop_last() =~= self.0@.take(i as int));
            assert(t.last() == self.0@[i as int]);
            if i > 0 {
                out.append("\n");
                proof { reveal_strlit("\n"); }
            }
            push_decimal(&mut out, self.0[i]);
            if i > 0 {
                assert(ascii_text(render_bytes(t)) =~= ascii_text(render_bytes(self.0@.take(i as int)))
                    + seq!['\n'] + ascii_text(dec_bytes(self.0@[i as int] as nat)));
                assert(out@ =~= before + seq!['\n'] + ascii_text(dec_bytes(self.0@[i as int] as nat)));
            } else {
                assert(out@ =~= ascii_text(render_bytes(t)));
            }
            i = i + 1;
        }
        assert(self.0@.take(i as int) =~= self.0@);
        out
    }

    pub fn from(value: Vec<u16>) -> (m: KeyMapping)
        ensures
            m@ == value@,
    {
        KeyMapping(value)
    }

    /// Number of LEDs the mapping covers.
    pub fn len(&self) -> (n: usize)
        ensures
            n == self@.len(),
    {
        self.0.len()
    }

    /// Get the LED index corresponding to the input key.
    pub fn get_led(&self, key: u16) -> (r: Option<usize>)
        ensures
            match r {
                Some(i) => led_of(self@, key) == Some(i as int),
                None => led_of(self@, key) is None,
            },
    {
        let mut i: usize = 0;
        while i < self.0.len()
            invariant
                i <= self.0@.len(),
                find_from(self.0@, key, 0) == find_from(self.0@, key, i as int),
            decreases self.0@.len() - i,
        {
            if self.0[i] == key {
                return Some(i);
            }
            i = i + 1;
        }
        None
    }
}

/// A name made safe for a file name: spaces become underscores.
pub open spec fn sanitized(lowered: Seq<char>) -> Seq<char> {
    replaced(lowered, seq![' '], seq!['_'])
}

/// The mapping file's name for a device, from its lowercased vendor and model.
pub open spec fn keymap_name_of(vendor_lower: Seq<char>, name_lower: Seq<char>) -> Seq<char> {
    sanitized(vendor_lower) + seq!['-'] + sanitized(name_lower) + seq![
        '.',
        'k',
        'e',
        'y',
        'm',
        'a',
        'p',
    ]
}

/// The mapping file's name from an already lowercased vendor and model:
/// `<vendor>-<model>.keymap`, with spaces turned into underscores.
pub fn keymap_file_name_lowered(vendor_lower: &str, name_lower: &str) -> (r: String)
    ensures
        r@ == keymap_name_of(vendor_lower@, name_lower@),
{
    proof {
        reveal_strlit(" ");
        reveal_strlit("_");
        reveal_strlit("-");
        reveal_strlit(".keymap");
    }
    assert(" "@ =~= seq![' ']);
    assert("_"@ =~= seq!['_']);
    let mut out = replace_str(vendor_lower, " ", "_");
    out.append("-");
    let name = replace_str(name_lower, " ", "_");
    out.append(name.as_str());
    out.append(".keymap");
    assert(out@ =~= keymap_name_of(vendor_lower@, name_lower@));
    out
}

/// The mapping file's name for a device: vendor and model lowercased, spaces
/// turned into underscores, as `<vendor>-<model>.keymap`.
pub fn keymap_file_name(vendor: &str, name: &str) -> (r: String)
    ensures
        r@ == keymap_name_of(lower_of(vendor@), lower_of(name@)),
{
    let v = lowercase(vendor);
    let n = lowercase(name);
    keymap_file_name_lowered(v.as_str(), n.as_str())
}

} // verus!
