use vstd::prelude::*;

use crate::codec::{
    bytes_to_hex, chars_of, hex_encode, hex_to_bytes, hex_value, is_hex_digit, string_from_chars,
};

verus! {

/// How `encode_meta` writes one character: a metacharacter as `%` and its
/// two hexadecimal digits, any other character as itself.
pub open spec fn encode_char(c: char, meta: Seq<char>) -> Seq<char> {
    if meta.contains(c) {
        seq!['%'] + hex_encode(seq![c as u8])
    } else {
        seq![c]
    }
}

/// `s` with every metacharacter percent-encoded.
pub open spec fn encode_meta_spec(s: Seq<char>, meta: Seq<char>) -> Seq<char>
    decreases s.len(),
{
    if s.len() == 0 {
        Seq::empty()
    } else {
        encode_meta_spec(s.drop_last(), meta) + encode_char(s.last(), meta)
    }
}

/// Whether every `%` in `s`, read from the left, is followed by two
/// hexadecimal digits.
pub open spec fn well_encoded(s: Seq<char>) -> bool
    decreases s.len(),
{
    if s.len() == 0 {
        true
    } else if s[0] == '%' {
        s.len() >= 3 && is_hex_digit(s[1]) && is_hex_digit(s[2]) && well_encoded(s.skip(3))
    } else {
        well_encoded(s.skip(1))
    }
}

/// `s` with every `%` and the two hexadecimal digits after it replaced by the
/// character whose code is the byte they spell.
pub open spec fn decode_meta_spec(s: Seq<char>) -> Seq<char>
    decreases s.len(),
{
    if s.len() == 0 {
        Seq::empty()
    } else if s[0] == '%' && s.len() >= 3 {
        seq![((16 * hex_value(s[1]) + hex_value(s[2])) as u8) as char] + decode_meta_spec(
            s.skip(3),
        )
    } else {
        seq![s[0]] + decode_meta_spec(s.skip(1))
    }
}

/// Percent-encodes each character of `str` that is in `meta`, as `%` and the
/// two lower-case hexadecimal digits of its code.
pub fn encode_meta(str: &str, meta: &[char]) -> (r: String)
    ensures
        r@ == encode_meta_spec(str@, meta@),
{
    let chars = chars_of(str);
    let mut out: Vec<char> = Vec::new();
    let mut i: usize = 0;
    while i < chars.len()
        invariant
            chars@ == str@,
            i <= chars@.len(),
            out@ == encode_meta_spec(str@.subrange(0, i as int), meta@),
        decreases chars@.len() - i,
    {
        let c = chars[i];
        let mut is_meta = false;
        let mut j: usize = 0;
        while j < meta.len()
            invariant
                j <= meta@.len(),
                is_meta == exists|k: int| 0 <= k < j && #[trigger] meta@[k] == c,
            decreases meta@.len() - j,
        {
            if meta[j] == c {
                is_meta = true;
            }
            j += 1;
        }
        if is_meta {
            out.push('%');
            let one: Vec<u8> = vec![c as u8];
            let hex = bytes_to_hex(one.as_slice());
            let hex_chars = chars_of(hex.as_str());
            out.push(hex_chars[0]);
            out.push(hex_chars[1]);
            assert(one@ =~= seq![c as u8]);
            assert(encode_char(c, meta@) =~= seq!['%', hex_chars@[0], hex_chars@[1]]);
        } else {
            out.push(c);
        }
        proof {
            assert(str@.subrange(0, i + 1).drop_last() =~= str@.subrange(0, i as int));
        }
        i += 1;
        assert(out@ =~= encode_meta_spec(str@.subrange(0, i as int), meta@));
    }
    assert(str@.subrange(0, chars@.len() as int) =~= str@);
    string_from_chars(&out)
}

/// Replaces each `%` and the two hexadecimal digits after it by the
/// character whose code is the byte they spell.
pub fn decode_meta(query: &str) -> (r: String)
    requires
        well_encoded(query@),
    ensures
        r@ == decode_meta_spec(query@),
{
    let chars = chars_of(query);
    let n = chars.len();
    let mut out: Vec<char> = Vec::new();
    let mut i: usize = 0;
    assert(query@.skip(0) =~= query@);
    assert(out@ + decode_meta_spec(query@) =~= decode_meta_spec(query@));
    while i < n
        invariant
            chars@ == query@,
            n == query@.len(),
            i <= n,
            well_encoded(query@.skip(i as int)),
            out@ + decode_meta_spec(query@.skip(i as int)) == decode_meta_spec(query@),
        decreases n - i,
    {
        let ghost rest = query@.skip(i as int);
        if chars[i] == '%' {
            assert(rest[0] == '%');
            let pair: Vec<char> = vec![chars[i + 1], chars[i + 2]];
            let pair_str = string_from_chars(&pair);
            assert(pair@ =~= seq![rest[1], rest[2]]);
            let byte = hex_to_bytes(pair_str.as_str());
            out.push(byte[0] as char);
            assert(rest.skip(3) =~= query@.skip(i + 3));
            i += 3;
        } else {
            out.push(chars[i]);
            assert(rest.skip(1) =~= query@.skip(i + 1));
            i += 1;
        }
    }
    assert(out@ =~= decode_meta_spec(query@));
    string_from_chars(&out)
}

/// The characters of pairs of strings.
pub open spec fn pairs_view(q: Seq<(String, String)>) -> Seq<(Seq<char>, Seq<char>)> {
    Seq::new(q.len(), |i: int| (q[i].0@, q[i].1@))
}

/// `key=value` items joined by `sep` (with `=` standing for `middle`), keys
/// and values percent-encoded where they hold `sep` or `middle`.
pub open spec fn query_string_spec(
    pairs: Seq<(Seq<char>, Seq<char>)>,
    sep: char,
    middle: char,
) -> Seq<char>
    decreases pairs.len(),
{
    if pairs.len() == 0 {
        Seq::empty()
    } else {
        let meta = seq![sep, middle];
        let p = pairs.last();
        let item = encode_meta_spec(p.0, meta) + seq![middle] + encode_meta_spec(p.1, meta);
        if pairs.len() == 1 {
            item
        } else {
            query_string_spec(pairs.drop_last(), sep, middle) + seq![sep] + item
        }
    }
}

/// The pieces of `s` between the separators `sep`, in order (an empty piece
/// where two separators meet or at either end).
pub open spec fn split_pieces(s: Seq<char>, sep: char) -> Seq<Seq<char>>
    decreases s.len(),
{
    if s.len() == 0 {
        seq![Seq::empty()]
    } else {
        let r = split_pieces(s.drop_last(), sep);
        if s.last() == sep {
            r.push(Seq::empty())
        } else {
            r.update(r.len() - 1, r.last().push(s.last()))
        }
    }
}

/// The pieces of `s` between the separators `sep`, without a last empty piece.
pub open spec fn terminated_pieces(s: Seq<char>, sep: char) -> Seq<Seq<char>> {
    let p = split_pieces(s, sep);
    if p.last().len() == 0 {
        p.drop_last()
    } else {
        p
    }
}

/// `k` is the position of the first `c` in `p`.
pub open spec fn is_first(p: Seq<char>, c: char, k: int) -> bool {
    0 <= k < p.len() && p[k] == c && forall|m: int| 0 <= m < k ==> p[m] != c
}

/// The position of the first `=` in `p`.
pub open spec fn first_equals(p: Seq<char>) -> int {
    choose|k: int| is_first(p, '=', k)
}

/// Whether a piece of a query string is `key=value`, with both halves well
/// encoded.
pub open spec fn valid_item(p: Seq<char>) -> bool {
    &&& exists|k: int| is_first(p, '=', k)
    &&& well_encoded(p.subrange(0, first_equals(p)))
    &&& well_encoded(p.subrange(first_equals(p) + 1, p.len() as int))
}

/// The decoded key and value of a piece `key=value`.
pub open spec fn parse_item(p: Seq<char>) -> (Seq<char>, Seq<char>) {
    (
        decode_meta_spec(p.subrange(0, first_equals(p))),
        decode_meta_spec(p.subrange(first_equals(p) + 1, p.len() as int)),
    )
}

/// Whether every `&`-separated piece of `s` is a well-encoded `key=value`.
pub open spec fn valid_query(s: Seq<char>) -> bool {
    forall|i: int|
        0 <= i < terminated_pieces(s, '&').len() ==> valid_item(
            #[trigger] terminated_pieces(s, '&')[i],
        )
}

/// The decoded `(key, value)` pairs of a query string.
pub open spec fn parse_query_spec(s: Seq<char>) -> Seq<(Seq<char>, Seq<char>)> {
    terminated_pieces(s, '&').map_values(|p: Seq<char>| parse_item(p))
}

/// Appends the characters of `s` to `out`.
fn push_chars(out: &mut Vec<char>, s: &str)
    ensures
        final(out)@ == old(out)@ + s@,
{
    let chars = chars_of(s);
    let mut i: usize = 0;
    while i < chars.len()
        invariant
            chars@ == s@,
            i <= chars@.len(),
            out@ == old(out)@ + s@.subrange(0, i as int),
        decreases chars@.len() - i,
    {
        out.push(chars[i]);
        i += 1;
        assert(out@ =~= old(out)@ + s@.subrange(0, i as int));
    }
    assert(s@.subrange(0, chars@.len() as int) =~= s@);
}

/// Joins `key middle value` items with `sep`, percent-encoding `sep` and
/// `middle` wherever they occur in a key or a value.
pub fn encode_to_query_string(query: &[(String, String)], sep: char, middle: char) -> (r: String)
    ensures
        r@ == query_string_spec(pairs_view(query@), sep, middle),
{
    let meta: Vec<char> = vec![sep, middle];
    assert(meta@ =~= seq![sep, middle]);
    let mut out: Vec<char> = Vec::new();
    let mut i: usize = 0;
    while i < query.len()
        invariant
            meta@ == seq![sep, middle],
            i <= query@.len(),
            out@ == query_string_spec(pairs_view(query@.subrange(0, i as int)), sep, middle),
        decreases query@.len() - i,
    {
        if i > 0 {
            out.push(sep);
        }
        let key = encode_meta(query[i].0.as_str(), meta.as_slice());
        let value = encode_meta(query[i].1.as_str(), meta.as_slice());
        push_chars(&mut out, key.as_str());
        out.push(middle);
        push_chars(&mut out, value.as_str());
        proof {
            let pv = pairs_view(query@.subrange(0, i + 1));
            assert(pv.drop_last() =~= pairs_view(query@.subrange(0, i as int)));
        }
        i += 1;
        assert(out@ =~= query_string_spec(pairs_view(query@.subrange(0, i as int)), sep, middle));
    }
    assert(query@.subrange(0, query@.len() as int) =~= query@);
    string_from_chars(&out)
}

/// The encoded profile of a user with this email address:
/// `email=<email>&uid=10&role=user`, with `&` and `=` in the address
/// percent-encoded.
pub fn profile_for(email: &str) -> (r: String)
    ensures
        r@ == query_string_spec(
            seq![("email"@, email@), ("uid"@, "10"@), ("role"@, "user"@)],
            '&',
            '=',
        ),
{
    let mut profile: Vec<(String, String)> = Vec::new();
    profile.push(("email".to_owned(), email.to_owned()));
    profile.push(("uid".to_owned(), "10".to_owned()));
    profile.push(("role".to_owned(), "user".to_owned()));
    let r = encode_to_query_string(profile.as_slice(), '&', '=');
    assert(pairs_view(profile@) =~= seq![("email"@, email@), ("uid"@, "10"@), ("role"@, "user"@)]);
    r
}

/// The pieces of `s` between separators, without a last empty piece.
fn split_terminated(s: &Vec<char>, sep: char) -> (r: Vec<Vec<char>>)
    ensures
        r@.map_values(|v: Vec<char>| v@) == terminated_pieces(s@, sep),
{
    let mut done: Vec<Vec<char>> = Vec::new();
    let mut current: Vec<char> = Vec::new();
    let mut i: usize = 0;
    assert(s@.subrange(0, 0) =~= Seq::<char>::empty());
    assert(done@.map_values(|v: Vec<char>| v@).push(current@) =~= seq![Seq::<char>::empty()]);
    while i < s.len()
        invariant
            i <= s@.len(),
            done@.map_values(|v: Vec<char>| v@).push(current@) == split_pieces(
                s@.subrange(0, i as int),
                sep,
            ),
        decreases s@.len() - i,
    {
        let c = s[i];
        let ghost before = done@.map_values(|v: Vec<char>| v@);
        let ghost cur = current@;
        assert(s@.subrange(0, i + 1).drop_last() =~= s@.subrange(0, i as int));
        assert(s@.subrange(0, i + 1).last() == c);
        if c == sep {
            done.push(current);
            current = Vec::new();
            assert(done@.map_values(|v: Vec<char>| v@) =~= before.push(cur));
        } else {
            current.push(c);
            assert(done@.map_values(|v: Vec<char>| v@) =~= before);
            assert(before.push(current@) =~= before.push(cur).update(before.len() as int, cur.push(c)));
        }
        i += 1;
    }
    assert(s@.subrange(0, s@.len() as int) =~= s@);
    let ghost pieces = split_pieces(s@, sep);
    if current.len() == 0 {
        assert(done@.map_values(|v: Vec<char>| v@) =~= pieces.drop_last());
        done
    } else {
        let ghost before = done@.map_values(|v: Vec<char>| v@);
        let ghost cur = current@;
        done.push(current);
        assert(done@.map_values(|v: Vec<char>| v@) =~= before.push(cur));
        done
    }
}

proof fn lemma_first_unique(p: Seq<char>, c: char, k1: int, k2: int)
    requires
        is_first(p, c, k1),
        is_first(p, c, k2),
    ensures
        k1 == k2,
{
    if k1 < k2 {
        assert(p[k1] != c);
    } else if k2 < k1 {
        assert(p[k2] != c);
    }
}

/// The key and value of one `key=value` piece, split at its first `=` and
/// decoded.
fn parse_piece(piece: &Vec<char>) -> (r: (String, String))
    requires
        valid_item(piece@),
    ensures
        (r.0@, r.1@) == parse_item(piece@),
{
    let n = piece.len();
    let mut k: usize = 0;
    while k < n && piece[k] != '='
        invariant
            n == piece@.len(),
            k <= n,
            forall|m: int| 0 <= m < k ==> piece@[m] != '=',
        decreases n - k,
    {
        k += 1;
    }
    proof {
        let f = first_equals(piece@);
        assert(is_first(piece@, '=', f));
        if k == n {
            assert(piece@[f] != '=');
        }
        lemma_first_unique(piece@, '=', k as int, f);
    }
    let mut key: Vec<char> = Vec::new();
    let mut j: usize = 0;
    while j < k
        invariant
            k < n == piece@.len(),
            j <= k,
            key@ == piece@.subrange(0, j as int),
        decreases k - j,
    {
        key.push(piece[j]);
        j += 1;
        assert(key@ =~= piece@.subrange(0, j as int));
    }
    let mut value: Vec<char> = Vec::new();
    let mut j: usize = k + 1;
    while j < n
        invariant
            k < n == piece@.len(),
            k + 1 <= j <= n,
            value@ == piece@.subrange(k + 1, j as int),
        decreases n - j,
    {
        value.push(piece[j]);
        j += 1;
        assert(value@ =~= piece@.subrange(k + 1, j as int));
    }
    let key_str = string_from_chars(&key);
    let value_str = string_from_chars(&value);
    (decode_meta(key_str.as_str()), decode_meta(value_str.as_str()))
}

/// The decoded `(key, value)` pairs of an `&`-separated query string whose
/// pieces are each `key=value`.
pub fn parse_query_string(str: &str) -> (r: Vec<(String, String)>)
    requires
        valid_query(str@),
    ensures
        pairs_view(r@) == parse_query_spec(str@),
{
    let chars = chars_of(str);
    let pieces = split_terminated(&chars, '&');
    let ghost tp = terminated_pieces(str@, '&');
    let mut out: Vec<(String, String)> = Vec::new();
    let mut i: usize = 0;
    while i < pieces.len()
        invariant
            valid_query(str@),
            tp == terminated_pieces(str@, '&'),
            pieces@.map_values(|v: Vec<char>| v@) == tp,
            i <= pieces@.len(),
            pairs_view(out@) == parse_query_spec(str@).subrange(0, i as int),
        decreases pieces@.len() - i,
    {
        assert(pieces@.map_values(|v: Vec<char>| v@)[i as int] == pieces@[i as int]@);
        assert(valid_item(tp[i as int]));
        let pair = parse_piece(&pieces[i]);
        assert(parse_query_spec(str@)[i as int] == parse_item(tp[i as int]));
        assert((pair.0@, pair.1@) == parse_query_spec(str@)[i as int]);
        let ghost before = out@;
        out.push(pair);
        assert(pairs_view(out@) =~= pairs_view(before).push((pair.0@, pair.1@)));
        i += 1;
        assert(pairs_view(out@) =~= parse_query_spec(str@).subrange(0, i as int));
    }
    assert(parse_query_spec(str@).subrange(0, pieces@.len() as int) =~= parse_query_spec(str@));
    out
}

} // verus!
