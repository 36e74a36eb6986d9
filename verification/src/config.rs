use vstd::prelude::*;
use vstd::string::StrSliceExecFns;

verus! {

/// Whether `c` has Unicode's `White_Space` property.
pub open spec fn is_white_space(c: char) -> bool {
    let u = c as u32;
    ||| 0x09 <= u <= 0x0D
    ||| u == 0x20
    ||| u == 0x85
    ||| u == 0xA0
    ||| u == 0x1680
    ||| 0x2000 <= u <= 0x200A
    ||| u == 0x2028
    ||| u == 0x2029
    ||| u == 0x202F
    ||| u == 0x205F
    ||| u == 0x3000
}

/// `s` without its leading white space.
pub open spec fn trim_start(s: Seq<char>) -> Seq<char>
    decreases s.len(),
{
    if s.len() > 0 && is_white_space(s[0]) {
        trim_start(s.drop_first())
    } else {
        s
    }
}

/// `s` without its trailing white space.
pub open spec fn trim_end(s: Seq<char>) -> Seq<char>
    decreases s.len(),
{
    if s.len() > 0 && is_white_space(s.last()) {
        trim_end(s.drop_last())
    } else {
        s
    }
}

/// `s` without its leading and trailing white space.
pub open spec fn trim(s: Seq<char>) -> Seq<char> {
    trim_end(trim_start(s))
}

/// The pieces of `s` between the occurrences of `sep`, in order; `s`
/// without `sep` is one piece, and an empty `s` is one empty piece.
pub open spec fn split_on(s: Seq<char>, sep: char) -> Seq<Seq<char>>
    decreases s.len(),
{
    if s.len() == 0 {
        seq![Seq::<char>::empty()]
    } else {
        let prev = split_on(s.drop_last(), sep);
        if s.last() == sep {
            prev.push(Seq::<char>::empty())
        } else {
            prev.update(prev.len() - 1, prev.last().push(s.last()))
        }
    }
}

/// The node addresses listed in `s`: the pieces between commas, each
/// without its leading and trailing white space.
pub open spec fn node_list(s: Seq<char>) -> Seq<Seq<char>> {
    split_on(s, ',').map_values(|p: Seq<char>| trim(p))
}

/// `split_on` always yields at least one piece.
pub proof fn lemma_split_nonempty(s: Seq<char>, sep: char)
    ensures
        split_on(s, sep).len() >= 1,
    decreases s.len(),
{
    if s.len() > 0 {
        lemma_split_nonempty(s.drop_last(), sep);
    }
}

/// The pieces joined back together, with `sep` between neighbours.
pub open spec fn join_with(pieces: Seq<Seq<char>>, sep: char) -> Seq<char>
    decreases pieces.len(),
{
    if pieces.len() == 0 {
        Seq::empty()
    } else if pieces.len() == 1 {
        pieces[0]
    } else {
        join_with(pieces.drop_last(), sep).push(sep) + pieces.last()
    }
}

/// The number of occurrences of `c` in `s`.
pub open spec fn occurrences(s: Seq<char>, c: char) -> nat
    decreases s.len(),
{
    if s.len() == 0 {
        0
    } else {
        occurrences(s.drop_last(), c) + if s.last() == c { 1nat } else { 0nat }
    }
}

/// Splitting loses nothing: joining the pieces with the separator gives back
/// the text, and no piece holds the separator.
pub proof fn lemma_split_join(s: Seq<char>, sep: char)
    ensures
        join_with(split_on(s, sep), sep) == s,
        forall|i: int| 0 <= i < split_on(s, sep).len() ==> !(#[trigger] split_on(s, sep)[i]).contains(sep),
    decreases s.len(),
{
    if s.len() == 0 {
        assert(split_on(s, sep) =~= seq![Seq::<char>::empty()]);
        assert(join_with(split_on(s, sep), sep) == Seq::<char>::empty());
        assert(s =~= Seq::<char>::empty());
    } else {
        let t = s.drop_last();
        let c = s.last();
        lemma_split_join(t, sep);
        lemma_split_nonempty(t, sep);
        let prev = split_on(t, sep);
        let cur = split_on(s, sep);
        if c == sep {
            assert(cur == prev.push(Seq::<char>::empty()));
            assert(cur.drop_last() =~= prev);
            assert(join_with(cur, sep) == join_with(prev, sep).push(sep) + Seq::<char>::empty());
            assert(s =~= t.push(sep));
            assert(join_with(cur, sep) =~= s);
            assert forall|i: int| 0 <= i < cur.len() implies !(#[trigger] cur[i]).contains(sep) by {
                if i < prev.len() {
                    assert(cur[i] == prev[i]);
                }
            }
        } else {
            let k = prev.len() - 1;
            assert(cur == prev.update(k, prev.last().push(c)));
            if prev.len() == 1 {
                assert(join_with(prev, sep) == prev[0]);
                assert(join_with(cur, sep) == cur[0]);
                assert(s =~= t.push(c));
            } else {
                assert(cur.drop_last() =~= prev.drop_last());
                assert(join_with(cur, sep) == join_with(prev.drop_last(), sep).push(sep) + prev.last().push(c));
                assert(join_with(prev, sep) == join_with(prev.drop_last(), sep).push(sep) + prev.last());
                assert(join_with(cur, sep) =~= join_with(prev, sep).push(c));
                assert(s =~= t.push(c));
            }
            assert forall|i: int| 0 <= i < cur.len() implies !(#[trigger] cur[i]).contains(sep) by {
                if i < k {
                    assert(cur[i] == prev[i]);
                } else {
                    assert(!prev[k].contains(sep));
                    if cur[i].contains(sep) {
                        let j = choose|j: int| 0 <= j < cur[i].len() && cur[i][j] == sep;
                        assert(cur[i] == prev[k].push(c));
                        if j < prev[k].len() {
                            assert(prev[k][j] == sep);
                        }
                    }
                }
            }
        }
    }
}

/// There is one piece more than there are separators in the text.
pub proof fn lemma_split_count(s: Seq<char>, sep: char)
    ensures
        split_on(s, sep).len() == occurrences(s, sep) + 1,
    decreases s.len(),
{
    if s.len() > 0 {
        lemma_split_count(s.drop_last(), sep);
        lemma_split_nonempty(s.drop_last(), sep);
    }
}

/// Trimming leaves no white space at either end, and trimming twice changes nothing.
pub proof fn lemma_trim_edges(s: Seq<char>)
    ensures
        trim(s).len() > 0 ==> !is_white_space(trim(s)[0]) && !is_white_space(trim(s).last()),
        trim(trim(s)) == trim(s),
{
    lemma_trim_start(s);
    lemma_trim_end(trim_start(s));
    let t = trim(s);
    if t.len() > 0 {
        lemma_trim_end_prefix(trim_start(s));
        assert(t[0] == trim_start(s)[0]);
    }
    lemma_trim_start_fixed(t);
    lemma_trim_end_fixed(t);
}

proof fn lemma_trim_start(s: Seq<char>)
    ensures
        trim_start(s).len() > 0 ==> !is_white_space(trim_start(s)[0]),
    decreases s.len(),
{
    if s.len() > 0 && is_white_space(s[0]) {
        lemma_trim_start(s.drop_first());
    }
}

proof fn lemma_trim_end(s: Seq<char>)
    ensures
        trim_end(s).len() > 0 ==> !is_white_space(trim_end(s).last()),
    decreases s.len(),
{
    if s.len() > 0 && is_white_space(s.last()) {
        lemma_trim_end(s.drop_last());
    }
}

proof fn lemma_trim_end_prefix(s: Seq<char>)
    ensures
        trim_end(s).len() <= s.len(),
        forall|i: int| 0 <= i < trim_end(s).len() ==> #[trigger] trim_end(s)[i] == s[i],
    decreases s.len(),
{
    if s.len() > 0 && is_white_space(s.last()) {
        lemma_trim_end_prefix(s.drop_last());
    }
}

proof fn lemma_trim_start_fixed(s: Seq<char>)
    requires
        s.len() > 0 ==> !is_white_space(s[0]) && !is_white_space(s.last()),
    ensures
        trim(s) == s,
{
}

proof fn lemma_trim_end_fixed(s: Seq<char>)
    requires
        s.len() > 0 ==> !is_white_space(s.last()),
    ensures
        trim_end(s) == s,
{
}

/// Appending text without the separator lengthens the last piece.
proof fn lemma_split_extend(a: Seq<char>, b: Seq<char>, sep: char)
    requires
        !b.contains(sep),
    ensures
        split_on(a + b, sep) == split_on(a, sep).update(
            split_on(a, sep).len() - 1,
            split_on(a, sep).last() + b,
        ),
    decreases b.len(),
{
    lemma_split_nonempty(a, sep);
    let sa = split_on(a, sep);
    let k = sa.len() - 1;
    if b.len() == 0 {
        assert(a + b =~= a);
        assert(sa.last() + b =~= sa.last());
        assert(sa.update(k, sa.last() + b) =~= sa);
    } else {
        let b2 = b.drop_last();
        let c = b.last();
        assert(!b2.contains(sep)) by {
            if b2.contains(sep) {
                let j = choose|j: int| 0 <= j < b2.len() && b2[j] == sep;
                assert(b[j] == sep);
            }
        }
        assert(c != sep) by {
            assert(b[b.len() - 1] == c);
        }
        lemma_split_extend(a, b2, sep);
        assert((a + b).drop_last() =~= a + b2);
        assert((a + b).last() == c);
        let prev = split_on(a + b2, sep);
        assert(prev == sa.update(k, sa.last() + b2));
        assert((sa.last() + b2).push(c) =~= sa.last() + b);
        assert(split_on(a + b, sep) =~= sa.update(k, sa.last() + b));
    }
}

/// Splitting a join of separator-free pieces gives the pieces back.
pub proof fn lemma_split_of_join(pieces: Seq<Seq<char>>, sep: char)
    requires
        pieces.len() >= 1,
        forall|i: int| 0 <= i < pieces.len() ==> !(#[trigger] pieces[i]).contains(sep),
    ensures
        split_on(join_with(pieces, sep), sep) == pieces,
    decreases pieces.len(),
{
    if pieces.len() == 1 {
        let e = Seq::<char>::empty();
        lemma_split_extend(e, pieces[0], sep);
        assert(e + pieces[0] =~= pieces[0]);
        assert(split_on(e, sep) =~= seq![e]);
        assert(split_on(pieces[0], sep) =~= pieces);
    } else {
        let prev = pieces.drop_last();
        assert forall|i: int| 0 <= i < prev.len() implies !(#[trigger] prev[i]).contains(sep) by {
            assert(prev[i] == pieces[i]);
        }
        lemma_split_of_join(prev, sep);
        let x = join_with(prev, sep).push(sep);
        assert(x.drop_last() =~= join_with(prev, sep));
        assert(split_on(x, sep) == prev.push(Seq::<char>::empty()));
        let last = pieces.last();
        assert(!last.contains(sep)) by {
            assert(pieces[pieces.len() - 1] == last);
        }
        lemma_split_extend(x, last, sep);
        assert(Seq::<char>::empty() + last =~= last);
        assert(prev.push(Seq::<char>::empty()).update(prev.len() as int, Seq::<char>::empty() + last) =~= pieces);
    }
}

/// Reading back a comma-joined list of trimmed, comma-free addresses gives
/// the same list.
pub proof fn lemma_node_list_round_trip(list: Seq<Seq<char>>)
    requires
        list.len() >= 1,
        forall|i: int| 0 <= i < list.len() ==> !(#[trigger] list[i]).contains(','),
        forall|i: int| 0 <= i < list.len() ==> trim(#[trigger] list[i]) == list[i],
    ensures
        node_list(join_with(list, ',')) == list,
{
    lemma_split_of_join(list, ',');
    assert(node_list(join_with(list, ',')) =~= list);
}

/// Every character of `trim(s)` is a character of `s`.
proof fn lemma_trim_within(s: Seq<char>)
    ensures
        forall|i: int| 0 <= i < trim(s).len() ==> s.contains(#[trigger] trim(s)[i]),
{
    lemma_trim_start_within(s);
    lemma_trim_end_prefix(trim_start(s));
    assert forall|i: int| 0 <= i < trim(s).len() implies s.contains(#[trigger] trim(s)[i]) by {
        assert(trim(s)[i] == trim_start(s)[i]);
    }
}

proof fn lemma_trim_start_within(s: Seq<char>)
    ensures
        forall|i: int| 0 <= i < trim_start(s).len() ==> s.contains(#[trigger] trim_start(s)[i]),
    decreases s.len(),
{
    if s.len() > 0 && is_white_space(s[0]) {
        let t = s.drop_first();
        lemma_trim_start_within(t);
        assert forall|i: int| 0 <= i < trim_start(s).len() implies s.contains(#[trigger] trim_start(s)[i]) by {
            let j = choose|j: int| 0 <= j < t.len() && t[j] == trim_start(t)[i];
            assert(s[j + 1] == t[j]);
        }
    } else {
        assert forall|i: int| 0 <= i < trim_start(s).len() implies s.contains(#[trigger] trim_start(s)[i]) by {
            assert(s[i] == trim_start(s)[i]);
        }
    }
}

/// No parsed address holds a comma or starts or ends with white space.
pub proof fn lemma_node_list_clean(s: Seq<char>)
    ensures
        forall|i: int| 0 <= i < node_list(s).len() ==> !(#[trigger] node_list(s)[i]).contains(','),
        forall|i: int| 0 <= i < node_list(s).len() ==> trim(#[trigger] node_list(s)[i]) == node_list(s)[i],
        forall|i: int|
            0 <= i < node_list(s).len() && node_list(s)[i].len() > 0 ==> !is_white_space(
                (#[trigger] node_list(s)[i])[0],
            ) && !is_white_space(node_list(s)[i].last()),
{
    lemma_split_join(s, ',');
    let pieces = split_on(s, ',');
    assert forall|i: int| 0 <= i < node_list(s).len() implies {
        &&& !(#[trigger] node_list(s)[i]).contains(',')
        &&& trim(node_list(s)[i]) == node_list(s)[i]
        &&& (node_list(s)[i].len() > 0 ==> !is_white_space(node_list(s)[i][0]) && !is_white_space(
            node_list(s)[i].last(),
        ))
    } by {
        let p = pieces[i];
        assert(node_list(s)[i] == trim(p));
        assert(!p.contains(','));
        lemma_trim_within(p);
        lemma_trim_edges(p);
        if trim(p).contains(',') {
            let j = choose|j: int| 0 <= j < trim(p).len() && trim(p)[j] == ',';
            assert(p.contains(trim(p)[j]));
        }
    }
}

/// Whether `c` has Unicode's `White_Space` property, as `char::is_whitespace` decides.
pub fn is_white_space_char(c: char) -> (b: bool)
    ensures
        b == is_white_space(c),
{
    let u = c as u32;
    (0x09 <= u && u <= 0x0D) || u == 0x20 || u == 0x85 || u == 0xA0 || u == 0x1680 || (0x2000
        <= u && u <= 0x200A) || u == 0x2028 || u == 0x2029 || u == 0x202F || u == 0x205F || u
        == 0x3000
}

/// The characters `from..to` of `s`, without leading and trailing white space.
fn trimmed_piece(s: &str, from: usize, to: usize) -> (r: String)
    requires
        from <= to <= s@.len(),
    ensures
        r@ == trim(s@.subrange(from as int, to as int)),
{
    let mut lo = from;
    while lo < to && is_white_space_char(s.get_char(lo))
        invariant
            from <= lo <= to <= s@.len(),
            trim_start(s@.subrange(from as int, to as int)) == trim_start(
                s@.subrange(lo as int, to as int),
            ),
        decreases to - lo,
    {
        assert(s@.subrange(lo as int, to as int).drop_first() =~= s@.subrange(lo + 1, to as int));
        lo = lo + 1;
    }
    assert(trim_start(s@.subrange(from as int, to as int)) == s@.subrange(lo as int, to as int));
    let mut hi = to;
    while hi > lo && is_white_space_char(s.get_char(hi - 1))
        invariant
            from <= lo <= hi <= to <= s@.len(),
            trim_end(s@.subrange(lo as int, to as int)) == trim_end(s@.subrange(lo as int, hi as int)),
        decreases hi - lo,
    {
        assert(s@.subrange(lo as int, hi as int).drop_last() =~= s@.subrange(lo as int, hi - 1));
        hi = hi - 1;
    }
    assert(trim_end(s@.subrange(lo as int, hi as int)) == s@.subrange(lo as int, hi as int));
    s.substring_char(lo, hi).to_owned()
}

/// Appending a trimmed piece to the parsed addresses keeps them the trimmed
/// pieces.
proof fn lemma_push_trimmed(parts: Seq<String>, raw: Seq<Seq<char>>, a: String, piece: Seq<char>)
    requires
        parts.len() == raw.len(),
        parts.map_values(|a: String| a@) == raw.map_values(|p: Seq<char>| trim(p)),
        a@ == trim(piece),
    ensures
        parts.push(a).len() == raw.push(piece).len(),
        parts.push(a).map_values(|a: String| a@) == raw.push(piece).map_values(|p: Seq<char>| trim(p)),
{
    assert forall|j: int| 0 <= j < parts.len() implies #[trigger] parts.push(a)[j]@ == trim(raw.push(piece)[j]) by {
        assert(parts.map_values(|a: String| a@)[j] == raw.map_values(|p: Seq<char>| trim(p))[j]);
    }
    assert(parts.push(a).map_values(|a: String| a@) =~= raw.push(piece).map_values(|p: Seq<char>| trim(p)));
}

/// Splits a comma-separated list of node addresses and trims each address.
pub fn parse_node_list(s: &str) -> (r: Vec<String>)
    ensures
        r@.map_values(|a: String| a@) == node_list(s@),
        r@.len() == split_on(s@, ',').len(),
        forall|i: int| 0 <= i < r@.len() ==> #[trigger] r@[i]@ == trim(split_on(s@, ',')[i]),
{
    let n = s.unicode_len();
    let mut parts: Vec<String> = Vec::new();
    let ghost mut raw: Seq<Seq<char>> = Seq::empty();
    let mut start: usize = 0;
    let mut i: usize = 0;
    assert(s@.take(0) =~= Seq::<char>::empty());
    assert(split_on(s@.take(0), ',') =~= raw.push(s@.subrange(0, 0)));
    while i < n
        invariant
            n == s@.len(),
            0 <= start <= i <= n,
            split_on(s@.take(i as int), ',') == raw.push(s@.subrange(start as int, i as int)),
            parts@.len() == raw.len(),
            parts@.map_values(|a: String| a@) == raw.map_values(|p: Seq<char>| trim(p)),
        decreases n - i,
    {
        let c = s.get_char(i);
        let ghost prefix = s@.take(i + 1);
        assert(prefix.drop_last() =~= s@.take(i as int));
        assert(prefix.last() == c);
        if c == ',' {
            let piece = trimmed_piece(s, start, i);
            proof {
                assert(split_on(prefix, ',') =~= raw.push(s@.subrange(start as int, i as int)).push(
                    Seq::<char>::empty(),
                ));
                lemma_push_trimmed(parts@, raw, piece, s@.subrange(start as int, i as int));
                raw = raw.push(s@.subrange(start as int, i as int));
            }
            parts.push(piece);
            start = i + 1;
            assert(s@.subrange(start as int, i + 1) =~= Seq::<char>::empty());
        } else {
            assert(s@.subrange(start as int, i + 1) =~= s@.subrange(start as int, i as int).push(c));
            assert(split_on(prefix, ',') =~= raw.push(s@.subrange(start as int, i + 1)));
        }
        i = i + 1;
    }
    let last = trimmed_piece(s, start, n);
    proof {
        lemma_push_trimmed(parts@, raw, last, s@.subrange(start as int, n as int));
        raw = raw.push(s@.subrange(start as int, n as int));
    }
    parts.push(last);
    assert(s@.take(n as int) =~= s@);
    assert forall|i: int| 0 <= i < parts@.len() implies #[trigger] parts@[i]@ == trim(split_on(s@, ',')[i]) by {
        assert(parts@.map_values(|a: String| a@)[i] == raw.map_values(|p: Seq<char>| trim(p))[i]);
    }
    parts
}

} // verus!
