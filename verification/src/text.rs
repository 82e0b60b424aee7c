//! ASCII text handling on `&str`: trimming and splitting at spaces.

use vstd::prelude::*;
use vstd::string::StringSliceAdditionalSpecFns;
use vstd::utf8::*;

verus! {

broadcast use vstd::utf8::group_utf8_lib;

/// The bytes that `u8::is_ascii_whitespace` accepts: space, tab, line feed,
/// form feed and carriage return.
pub open spec fn is_ascii_space(b: u8) -> bool {
    b == 0x20u8 || b == 0x09u8 || b == 0x0au8 || b == 0x0cu8 || b == 0x0du8
}

/// `bs` without its leading ASCII whitespace.
pub open spec fn trim_start(bs: Seq<u8>) -> Seq<u8>
    decreases bs.len(),
{
    if bs.len() > 0 && is_ascii_space(bs[0]) {
        trim_start(bs.drop_first())
    } else {
        bs
    }
}

/// `bs` without its trailing ASCII whitespace.
pub open spec fn trim_end(bs: Seq<u8>) -> Seq<u8>
    decreases bs.len(),
{
    if bs.len() > 0 && is_ascii_space(bs.last()) {
        trim_end(bs.drop_last())
    } else {
        bs
    }
}

/// `bs` without leading and trailing ASCII whitespace.
pub open spec fn trimmed(bs: Seq<u8>) -> Seq<u8> {
    trim_end(trim_start(bs))
}

pub(crate) fn is_space_byte(b: u8) -> (r: bool)
    ensures
        r == is_ascii_space(b),
{
    b == 0x20u8 || b == 0x09u8 || b == 0x0au8 || b == 0x0cu8 || b == 0x0du8
}

proof fn lemma_boundary_at_ascii(bs: Seq<u8>, i: int)
    requires
        valid_utf8(bs),
        0 <= i < bs.len(),
        bs[i] < 0x80,
    ensures
        is_char_boundary(bs, i),
{
    is_char_boundary_iff_not_is_continuation_byte(bs, i);
}

proof fn lemma_boundary_after_first_ascii(bs: Seq<u8>)
    requires
        valid_utf8(bs),
        bs.len() >= 1,
        bs[0] < 0x80,
    ensures
        is_char_boundary(bs, 1),
{
    reveal_with_fuel(is_char_boundary, 2);
}

/// Splits `s` at byte `i`, where that byte is ASCII.
pub(crate) fn split_at_ascii(s: &str, i: usize) -> (r: (&str, &str))
    requires
        i < s.spec_bytes().len(),
        s.spec_bytes()[i as int] < 0x80,
    ensures
        r.0.spec_bytes() == s.spec_bytes().subrange(0, i as int),
        r.1.spec_bytes() == s.spec_bytes().subrange(i as int, s.spec_bytes().len() as int),
{
    proof {
        lemma_boundary_at_ascii(s.spec_bytes(), i as int);
    }
    s.split_at(i)
}

/// `s` without its first byte, which is ASCII.
pub(crate) fn drop_first_ascii(s: &str) -> (r: &str)
    requires
        s.spec_bytes().len() >= 1,
        s.spec_bytes()[0] < 0x80,
    ensures
        r.spec_bytes() == s.spec_bytes().drop_first(),
{
    proof {
        lemma_boundary_after_first_ascii(s.spec_bytes());
    }
    let (_, rest) = s.split_at(1);
    rest
}

/// Removes leading and trailing ASCII whitespace, as `str::trim_ascii` does.
pub fn trim_ascii(s: &str) -> (r: &str)
    ensures
        r.spec_bytes() == trimmed(s.spec_bytes()),
{
    let mut cur = s;
    loop
        invariant
            trim_start(cur.spec_bytes()) == trim_start(s.spec_bytes()),
        ensures
            cur.spec_bytes() == trim_start(s.spec_bytes()),
        decreases cur.spec_bytes().len(),
    {
        let bytes = cur.as_bytes();
        if bytes.len() == 0 || !is_space_byte(bytes[0]) {
            break;
        }
        cur = drop_first_ascii(cur);
    }
    let ghost front = cur.spec_bytes();
    loop
        invariant
            trim_end(cur.spec_bytes()) == trim_end(front),
        ensures
            cur.spec_bytes() == trim_end(front),
        decreases cur.spec_bytes().len(),
    {
        let bytes = cur.as_bytes();
        let n = bytes.len();
        if n == 0 || !is_space_byte(bytes[n - 1]) {
            break;
        }
        let (head, _) = split_at_ascii(cur, n - 1);
        cur = head;
    }
    cur
}


/// Index of the first space byte of `bs`, if there is one.
pub open spec fn find_space(bs: Seq<u8>) -> Option<int>
    decreases bs.len(),
{
    if bs.len() == 0 {
        None
    } else if bs[0] == 0x20u8 {
        Some(0)
    } else {
        match find_space(bs.drop_first()) {
            Some(i) => Some(i + 1),
            None => None,
        }
    }
}

/// `find_space` names the first space, or says that there is none.
pub proof fn lemma_find_space(bs: Seq<u8>)
    ensures
        match find_space(bs) {
            Some(i) => 0 <= i < bs.len() && bs[i] == 0x20u8 && forall|k: int|
                0 <= k < i ==> bs[k] != 0x20u8,
            None => forall|k: int| 0 <= k < bs.len() ==> bs[k] != 0x20u8,
        },
    decreases bs.len(),
{
    if bs.len() > 0 && bs[0] != 0x20u8 {
        lemma_find_space(bs.drop_first());
        assert forall|k: int| 1 <= k < bs.len() implies bs[k] == bs.drop_first()[k - 1] by {}
    }
}

proof fn lemma_find_space_at(bs: Seq<u8>, i: int)
    requires
        0 <= i <= bs.len(),
        forall|k: int| 0 <= k < i ==> bs[k] != 0x20u8,
    ensures
        i < bs.len() && bs[i] == 0x20u8 ==> find_space(bs) == Some(i),
        i == bs.len() ==> find_space(bs) is None,
    decreases i,
{
    if i > 0 {
        lemma_find_space_at(bs.drop_first(), i - 1);
    }
}

/// Position of the first space in `s`, as `s.find(' ')` gives it.
pub(crate) fn find_space_exec(s: &str) -> (r: Option<usize>)
    ensures
        match r {
            Some(i) => find_space(s.spec_bytes()) == Some(i as int),
            None => find_space(s.spec_bytes()) is None,
        },
{
    let bytes = s.as_bytes();
    let n = bytes.len();
    let mut i: usize = 0;
    while i < n
        invariant
            n == bytes@.len(),
            bytes@ == s.spec_bytes(),
            0 <= i <= n,
            forall|k: int| 0 <= k < i ==> bytes@[k] != 0x20u8,
        decreases n - i,
    {
        if bytes[i] == 0x20u8 {
            proof {
                lemma_find_space_at(bytes@, i as int);
            }
            return Some(i);
        }
        i = i + 1;
    }
    proof {
        lemma_find_space_at(bytes@, i as int);
    }
    None
}

/// What `split_first` gives: the text before the first space, and the
/// trimmed text after it; or the whole text and nothing.
pub open spec fn split_first_spec(bs: Seq<u8>) -> (Seq<u8>, Seq<u8>) {
    match find_space(bs) {
        Some(i) => (bs.take(i), trimmed(bs.skip(i + 1))),
        None => (bs, Seq::<u8>::empty()),
    }
}

pub(crate) fn empty_str() -> (r: &'static str)
    ensures
        r.spec_bytes() == Seq::<u8>::empty(),
{
    proof {
        reveal_strlit("");
    }
    let r = "";
    assert(r@ =~= Seq::<char>::empty());
    assert(encode_utf8(r@) =~= Seq::<u8>::empty());
    r
}

/// Splits `s` at its first space into a word and the trimmed rest.
pub fn split_first(s: &str) -> (r: (&str, &str))
    ensures
        r.0.spec_bytes() == split_first_spec(s.spec_bytes()).0,
        r.1.spec_bytes() == split_first_spec(s.spec_bytes()).1,
{
    proof {
        lemma_find_space(s.spec_bytes());
    }
    match find_space_exec(s) {
        Some(i) => {
            let (head, tail) = split_at_ascii(s, i);
            let rest = drop_first_ascii(tail);
            assert(rest.spec_bytes() =~= s.spec_bytes().skip(i + 1));
            assert(head.spec_bytes() =~= s.spec_bytes().take(i as int));
            (head, trim_ascii(rest))
        },
        None => (s, empty_str()),
    }
}

/// The words that `split3` fills its slots with, from a text and the
/// number of slots still open. The last open slot takes the whole rest.
pub open spec fn split_fields(rem: Seq<u8>, slots: nat) -> Seq<Seq<u8>>
    decreases slots,
{
    let t = trimmed(rem);
    if slots == 0 || t.len() == 0 {
        Seq::<Seq<u8>>::empty()
    } else if slots == 1 {
        seq![t]
    } else {
        match find_space(t) {
            Some(p) => seq![t.take(p)] + split_fields(t.skip(p + 1), (slots - 1) as nat),
            None => seq![t],
        }
    }
}

/// Slot `k` of the `split3` result: a word, or nothing.
pub open spec fn split3_slot(bs: Seq<u8>, k: int) -> Seq<u8> {
    let f = split_fields(bs, 3);
    if k < f.len() {
        f[k]
    } else {
        Seq::<u8>::empty()
    }
}

/// Trimming never lengthens a text.
pub proof fn lemma_trimmed_len(bs: Seq<u8>)
    ensures
        trimmed(bs).len() <= bs.len(),
{
    lemma_trim_start_shape(bs);
    lemma_trim_end_shape(trim_start(bs));
}

proof fn lemma_trimmed_idempotent(bs: Seq<u8>)
    ensures
        trimmed(trimmed(bs)) == trimmed(bs),
{
    lemma_trim_start_shape(bs);
    lemma_trim_end_shape(trim_start(bs));
    let t = trimmed(bs);
    if t.len() > 0 {
        lemma_trim_start_noop(t);
        lemma_trim_end_noop(t);
    } else {
        assert(trim_start(t) == t);
        assert(trim_end(t) == t);
    }
}

proof fn lemma_trim_start_shape(bs: Seq<u8>)
    ensures
        trim_start(bs).len() == 0 || !is_ascii_space(trim_start(bs)[0]),
        trim_start(bs).len() <= bs.len(),
        trim_start(bs) == bs.skip(bs.len() - trim_start(bs).len()),
    decreases bs.len(),
{
    if bs.len() > 0 && is_ascii_space(bs[0]) {
        lemma_trim_start_shape(bs.drop_first());
        assert(bs.drop_first().skip(bs.drop_first().len() - trim_start(bs).len()) =~= bs.skip(
            bs.len() - trim_start(bs).len(),
        ));
    } else {
        assert(bs.skip(0) =~= bs);
    }
}

proof fn lemma_trim_end_shape(bs: Seq<u8>)
    ensures
        trim_end(bs).len() == 0 || !is_ascii_space(trim_end(bs).last()),
        trim_end(bs).len() <= bs.len(),
        trim_end(bs) == bs.take(trim_end(bs).len() as int),
    decreases bs.len(),
{
    if bs.len() > 0 && is_ascii_space(bs.last()) {
        lemma_trim_end_shape(bs.drop_last());
        assert(bs.drop_last().take(trim_end(bs).len() as int) =~= bs.take(trim_end(bs).len() as int));
    } else {
        assert(bs.take(bs.len() as int) =~= bs);
    }
}

proof fn lemma_trim_start_noop(bs: Seq<u8>)
    requires
        bs.len() > 0 ==> !is_ascii_space(bs[0]),
    ensures
        trim_start(bs) == bs,
{
}

proof fn lemma_trim_end_noop(bs: Seq<u8>)
    requires
        bs.len() > 0 ==> !is_ascii_space(bs.last()),
    ensures
        trim_end(bs) == bs,
{
}

/// Splits `s` into up to three words; the third takes the rest of the text.
pub fn split3(s: &str) -> (r: [&str; 3])
    ensures
        forall|k: int| 0 <= k < 3 ==> #[trigger] r@[k].spec_bytes() == split3_slot(s.spec_bytes(), k),
{
    let ghost bs = s.spec_bytes();
    let t0 = trim_ascii(s);
    if t0.as_bytes().len() == 0 {
        let e = empty_str();
        let r = [e, e, e];
        assert(split_fields(bs, 3).len() == 0);
        return r;
    }
    proof {
        lemma_find_space(t0.spec_bytes());
    }
    match find_space_exec(t0) {
        None => {
            let e = empty_str();
            let r = [t0, e, e];
            assert(split_fields(bs, 3) == seq![t0.spec_bytes()]);
            r
        },
        Some(p) => {
            let (a, tail) = split_at_ascii(t0, p);
            let rest = drop_first_ascii(tail);
            assert(rest.spec_bytes() =~= t0.spec_bytes().skip(p + 1));
            assert(a.spec_bytes() =~= t0.spec_bytes().take(p as int));
            let ghost f1 = split_fields(rest.spec_bytes(), 2);
            assert(split_fields(bs, 3) == seq![a.spec_bytes()] + f1);
            let t1 = trim_ascii(rest);
            if t1.as_bytes().len() == 0 {
                let e = empty_str();
                assert(f1.len() == 0);
                assert(split_fields(bs, 3) =~= seq![a.spec_bytes()]);
                return [a, e, e];
            }
            proof {
                lemma_find_space(t1.spec_bytes());
            }
            match find_space_exec(t1) {
                None => {
                    let e = empty_str();
                    assert(f1 == seq![t1.spec_bytes()]);
                    assert(split_fields(bs, 3) =~= seq![a.spec_bytes(), t1.spec_bytes()]);
                    [a, t1, e]
                },
                Some(q) => {
                    let (b, tail2) = split_at_ascii(t1, q);
                    let rest2 = drop_first_ascii(tail2);
                    assert(rest2.spec_bytes() =~= t1.spec_bytes().skip(q + 1));
                    assert(b.spec_bytes() =~= t1.spec_bytes().take(q as int));
                    let c = trim_ascii(rest2);
                    let ghost f2 = split_fields(rest2.spec_bytes(), 1);
                    assert(f1 == seq![b.spec_bytes()] + f2);
                    if c.as_bytes().len() == 0 {
                        assert(f2.len() == 0);
                        assert(split_fields(bs, 3) =~= seq![a.spec_bytes(), b.spec_bytes()]);
                    } else {
                        assert(f2 == seq![c.spec_bytes()]);
                        assert(split_fields(bs, 3) =~= seq![a.spec_bytes(), b.spec_bytes(), c.spec_bytes()]);
                    }
                    [a, b, c]
                },
            }
        },
    }
}


/// The bytes of `bs` before its first NUL byte (all of them if there is none).
pub open spec fn before_nul(bs: Seq<u8>) -> Seq<u8>
    decreases bs.len(),
{
    if bs.len() == 0 || bs[0] == 0u8 {
        Seq::<u8>::empty()
    } else {
        seq![bs[0]] + before_nul(bs.drop_first())
    }
}

/// What `name_str` shows for a fixed-size name field: the text before the
/// first NUL, or `?` where those bytes are not UTF-8.
pub open spec fn name_bytes(bs: Seq<u8>) -> Seq<u8> {
    if valid_utf8(before_nul(bs)) {
        before_nul(bs)
    } else {
        seq![0x3fu8]
    }
}

proof fn lemma_before_nul_at(bs: Seq<u8>, i: int)
    requires
        0 <= i <= bs.len(),
        forall|k: int| 0 <= k < i ==> bs[k] != 0u8,
        i < bs.len() ==> bs[i] == 0u8,
    ensures
        before_nul(bs) == bs.take(i),
    decreases i,
{
    if i > 0 {
        lemma_before_nul_at(bs.drop_first(), i - 1);
        assert(seq![bs[0]] + bs.drop_first().take(i - 1) =~= bs.take(i));
    } else {
        assert(bs.take(0) =~= Seq::<u8>::empty());
    }
}

/// Law: a name field shows the bytes before its first NUL (all sixteen if
/// it has none) when they are UTF-8, and `?` when they are not.
pub proof fn law_name_before_nul(bs: Seq<u8>, i: int)
    requires
        0 <= i <= bs.len(),
        forall|k: int| 0 <= k < i ==> bs[k] != 0u8,
        i < bs.len() ==> bs[i] == 0u8,
    ensures
        valid_utf8(bs.take(i)) ==> name_bytes(bs) == bs.take(i),
        !valid_utf8(bs.take(i)) ==> name_bytes(bs) == seq![0x3fu8],
{
    lemma_before_nul_at(bs, i);
}

/// `core::str::from_utf8`, keeping the string on success.
///
/// Trusted: std documents that `from_utf8` succeeds exactly on valid UTF-8
/// and that the string it returns holds the same bytes; the contract states
/// validity with vstd's `valid_utf8`.
#[verifier::external_body]
pub(crate) fn utf8_str(b: &[u8]) -> (r: Option<&str>)
    ensures
        r is Some <==> valid_utf8(b@),
        r matches Some(s) ==> s.spec_bytes() == b@,
{
    core::str::from_utf8(b).ok()
}

pub(crate) fn question_mark() -> (r: &'static str)
    ensures
        r.spec_bytes() == seq![0x3fu8],
{
    proof {
        reveal_strlit("?");
    }
    let r = "?";
    assert(r@ =~= seq!['?']);
    assert(is_ascii_chars(r@));
    assert(encode_utf8(r@) =~= seq![0x3fu8]) by {
        is_ascii_chars_encode_utf8(r@);
    }
    r
}

/// The text of a NUL-padded 16-byte name field, or `?` if it is not UTF-8.
pub fn name_str(buf: &[u8; 16]) -> (r: &str)
    ensures
        r.spec_bytes() == name_bytes(buf@),
{
    let bytes = buf.as_slice();
    let mut len: usize = 0;
    loop
        invariant
            bytes@ == buf@,
            bytes@.len() == 16,
            0 <= len <= 16,
            forall|k: int| 0 <= k < len ==> bytes@[k] != 0u8,
        ensures
            0 <= len <= 16,
            forall|k: int| 0 <= k < len ==> bytes@[k] != 0u8,
            len < 16 ==> bytes@[len as int] == 0u8,
        decreases 16 - len,
    {
        if len == 16 || bytes[len] == 0u8 {
            break;
        }
        len = len + 1;
    }
    proof {
        lemma_before_nul_at(buf@, len as int);
    }
    let prefix = vstd::slice::slice_subrange(bytes, 0, len);
    assert(prefix@ =~= buf@.take(len as int));
    match utf8_str(prefix) {
        Some(t) => t,
        None => question_mark(),
    }
}


/// Whether two byte slices hold the same bytes.
pub(crate) fn bytes_eq(a: &[u8], b: &[u8]) -> (r: bool)
    ensures
        r == (a@ == b@),
{
    let n = a.len();
    if n != b.len() {
        return false;
    }
    let mut i: usize = 0;
    while i < n
        invariant
            n == a@.len(),
            n == b@.len(),
            0 <= i <= n,
            forall|k: int| 0 <= k < i ==> a@[k] == b@[k],
        decreases n - i,
    {
        if a[i] != b[i] {
            return false;
        }
        i = i + 1;
    }
    assert(a@ =~= b@);
    true
}

/// Whether two strings are equal.
pub fn str_eq(a: &str, b: &str) -> (r: bool)
    ensures
        r == (a.spec_bytes() == b.spec_bytes()),
{
    bytes_eq(a.as_bytes(), b.as_bytes())
}


/// What a service's text reply holds: its text, or why there is none.
pub enum ReplyText<'a> {
    /// A successful reply whose bytes are UTF-8.
    Text(&'a str),
    /// A successful reply whose bytes are not UTF-8; nothing is shown.
    NotText,
    /// An unsuccessful reply.
    Failed,
}

/// The text of a reply of `len` bytes in `data`, as `ls`, `find`, `history`,
/// `tag ls` and `config list` show it.
pub fn reply_text(msg_type: u16, data: &[u8], len: usize) -> (r: ReplyText)
    requires
        msg_type == crate::wire::REPLY_OK ==> len <= data@.len(),
    ensures
        msg_type != crate::wire::REPLY_OK ==> r is Failed,
        msg_type == crate::wire::REPLY_OK && valid_utf8(data@.take(len as int)) ==> (r matches ReplyText::Text(t)
            && t.spec_bytes() == data@.take(len as int)),
        msg_type == crate::wire::REPLY_OK && !valid_utf8(data@.take(len as int)) ==> r is NotText,
{
    if msg_type != crate::wire::REPLY_OK {
        return ReplyText::Failed;
    }
    let body = vstd::slice::slice_subrange(data, 0, len);
    assert(body@ =~= data@.take(len as int));
    match utf8_str(body) {
        Some(t) => ReplyText::Text(t),
        None => ReplyText::NotText,
    }
}


/// Law: trimming gives a piece of the text with no ASCII whitespace at
/// either end, and trimming it again changes nothing.
pub proof fn law_trim_ascii(bs: Seq<u8>)
    ensures
        trimmed(trimmed(bs)) == trimmed(bs),
        trimmed(bs).len() > 0 ==> !is_ascii_space(trimmed(bs)[0]) && !is_ascii_space(
            trimmed(bs).last(),
        ),
        exists|a: int|
            0 <= a && a + trimmed(bs).len() <= bs.len() && #[trigger] bs.subrange(
                a,
                a + trimmed(bs).len(),
            ) == trimmed(bs),
{
    lemma_trimmed_idempotent(bs);
    lemma_trim_start_shape(bs);
    let f = trim_start(bs);
    lemma_trim_end_shape(f);
    let t = trimmed(bs);
    let a = bs.len() - f.len();
    if t.len() > 0 {
        assert(t[0] == f[0]);
    }
    assert(bs.subrange(a, a + t.len()) =~= t);
}

proof fn lemma_trim_start_drop_last(bs: Seq<u8>)
    requires
        bs.len() > 0,
    ensures
        trim_start(bs.drop_last()) == (if trim_start(bs).len() > 0 {
            trim_start(bs).drop_last()
        } else {
            Seq::<u8>::empty()
        }),
    decreases bs.len(),
{
    if bs.len() == 1 {
        assert(bs.drop_last() =~= Seq::<u8>::empty());
        if is_ascii_space(bs[0]) {
            assert(bs.drop_first() =~= Seq::<u8>::empty());
        }
    } else if is_ascii_space(bs[0]) {
        lemma_trim_start_drop_last(bs.drop_first());
        assert(bs.drop_last().drop_first() =~= bs.drop_first().drop_last());
    }
}

/// Law: trimming strips exactly tab, line feed, form feed, carriage return
/// and space. A text that starts and ends with none of them is left as it
/// is, and one of them at either end goes and the rest is trimmed alike.
pub proof fn law_trim_strips_ascii_whitespace(bs: Seq<u8>)
    ensures
        (bs.len() == 0 || !(bs[0] == 0x09u8 || bs[0] == 0x0au8 || bs[0] == 0x0cu8 || bs[0] == 0x0du8
            || bs[0] == 0x20u8) && !(bs.last() == 0x09u8 || bs.last() == 0x0au8 || bs.last()
            == 0x0cu8 || bs.last() == 0x0du8 || bs.last() == 0x20u8)) ==> trimmed(bs) == bs,
        bs.len() > 0 && (bs[0] == 0x09u8 || bs[0] == 0x0au8 || bs[0] == 0x0cu8 || bs[0] == 0x0du8
            || bs[0] == 0x20u8) ==> trimmed(bs) == trimmed(bs.drop_first()),
        bs.len() > 0 && (bs.last() == 0x09u8 || bs.last() == 0x0au8 || bs.last() == 0x0cu8
            || bs.last() == 0x0du8 || bs.last() == 0x20u8) ==> trimmed(bs) == trimmed(
            bs.drop_last(),
        ),
{
    if bs.len() > 0 {
        lemma_trim_start_shape(bs);
        lemma_trim_start_drop_last(bs);
        let ts = trim_start(bs);
        if ts.len() > 0 {
            assert(ts.last() == bs.last());
        } else {
            assert(trim_start(bs.drop_last()) =~= Seq::<u8>::empty());
        }
    }
}

/// Law: the word `split_first` gives holds no space and starts the text;
/// where the text has a space, the word ends right before the first one and
/// the rest is what follows it, trimmed.
pub proof fn law_split_first(bs: Seq<u8>)
    ensures
        forall|k: int|
            0 <= k < split_first_spec(bs).0.len() ==> #[trigger] split_first_spec(bs).0[k]
                != 0x20u8,
        split_first_spec(bs).0 == bs.take(split_first_spec(bs).0.len() as int),
        split_first_spec(bs).0.len() < bs.len() ==> bs[split_first_spec(bs).0.len() as int]
            == 0x20u8 && split_first_spec(bs).1 == trimmed(
            bs.skip((split_first_spec(bs).0.len() + 1) as int),
        ),
        split_first_spec(bs).0.len() == bs.len() ==> split_first_spec(bs).1.len() == 0,
{
    lemma_find_space(bs);
    match find_space(bs) {
        Some(i) => {
            assert(bs.take(i).take(i) =~= bs.take(i));
        },
        None => {
            assert(bs.take(bs.len() as int) =~= bs);
        },
    }
}

} // verus!
