use vstd::prelude::*;
use vstd::string::StrSliceExecFns;

verus! {

/// A piece of a comma list could not be read as a number or number range.
#[derive(Clone, Copy, PartialEq, Eq, Structural, Debug)]
pub struct ParseNumError;

/// The comma-separated pieces of a string; an empty string is one empty
/// piece, and a trailing comma yields a final empty piece.
pub open spec fn split_commas(s: Seq<char>) -> Seq<Seq<char>>
    decreases s.len(),
{
    if s.len() == 0 {
        seq![Seq::<char>::empty()]
    } else if s.last() == ',' {
        split_commas(s.drop_last()).push(Seq::<char>::empty())
    } else {
        let rest = split_commas(s.drop_last());
        rest.update(rest.len() - 1, rest.last().push(s.last()))
    }
}

pub proof fn lemma_split_commas_nonempty(s: Seq<char>)
    ensures
        split_commas(s).len() >= 1,
    decreases s.len(),
{
    if s.len() > 0 {
        lemma_split_commas_nonempty(s.drop_last());
    }
}

/// The name of the directory that holds one statistics file per atom, by
/// default; the caller resolves it against its own base directory.
pub fn default_stats_dir() -> (r: String)
    ensures
        r@ == "stats"@,
{
    "stats".to_owned()
}

/// The name of the directory that measurement records are written to by
/// default; the caller resolves it against its own base directory.
pub fn default_output_dir() -> (r: String)
    ensures
        r@ == "output"@,
{
    "output".to_owned()
}

/// Split a comma-separated list into its pieces. Never fails.
#[verifier::loop_isolation(false)]
pub fn parse_comma_string_list(s: &str) -> (r: Result<Vec<String>, &'static str>)
    ensures
        r is Ok,
        r->Ok_0@.len() == split_commas(s@).len(),
        forall|i: int| 0 <= i < r->Ok_0@.len() ==> r->Ok_0@[i]@ == split_commas(s@)[i],
{
    let n = s.unicode_len();
    let mut pieces: Vec<String> = Vec::new();
    let mut start: usize = 0;
    let mut i: usize = 0;
    proof {
        assert(s@.take(0) =~= Seq::<char>::empty());
    }
    while i < n
        invariant
            0 <= start <= i <= n,
            n == s@.len(),
            split_commas(s@.take(i as int)) == pieces@.map_values(|p: String| p@).push(
                s@.subrange(start as int, i as int),
            ),
        decreases n - i,
    {
        let ghost prefix = s@.take(i as int);
        let c = s.get_char(i);
        proof {
            assert(s@.take(i + 1).drop_last() =~= prefix);
            assert(s@.take(i + 1).last() == s@[i as int]);
        }
        if c == ',' {
            let piece = s.substring_char(start, i).to_owned();
            pieces.push(piece);
            proof {
                assert(split_commas(s@.take(i + 1)) == split_commas(prefix).push(
                    Seq::<char>::empty(),
                ));
                assert(pieces@.map_values(|p: String| p@).push(
                    s@.subrange(i + 1, i + 1),
                ) =~= split_commas(prefix).push(Seq::<char>::empty())) by {
                    assert(pieces@.map_values(|p: String| p@)
                        =~= pieces@.drop_last().map_values(|p: String| p@).push(
                        s@.subrange(start as int, i as int),
                    ));
                    assert(s@.subrange(i + 1, i + 1) =~= Seq::<char>::empty());
                }
            }
            start = i + 1;
        } else {
            proof {
                let old_split = split_commas(prefix);
                lemma_split_commas_nonempty(prefix);
                assert(split_commas(s@.take(i + 1)) == old_split.update(
                    old_split.len() - 1,
                    old_split.last().push(s@[i as int]),
                ));
                assert(old_split.last() == s@.subrange(start as int, i as int));
                assert(s@.subrange(start as int, i as int).push(s@[i as int]) =~= s@.subrange(
                    start as int,
                    i + 1,
                ));
                assert(pieces@.map_values(|p: String| p@).push(
                    s@.subrange(start as int, i + 1),
                ) =~= old_split.update(old_split.len() - 1, s@.subrange(start as int, i + 1)));
            }
        }
        i += 1;
    }
    let last = s.substring_char(start, n).to_owned();
    pieces.push(last);
    proof {
        assert(s@.take(n as int) =~= s@);
        assert(pieces@.map_values(|p: String| p@) =~= pieces@.drop_last().map_values(
            |p: String| p@,
        ).push(s@.subrange(start as int, n as int)));
        assert forall|i2: int|
            0 <= i2 < pieces@.len() implies pieces@[i2]@ == split_commas(s@)[i2] by {
            assert(pieces@.map_values(|p: String| p@)[i2] == pieces@[i2]@);
        }
    }
    Ok(pieces)
}

/// Whether the piece is a nonempty run of decimal digits.
pub open spec fn is_digits(p: Seq<char>) -> bool {
    p.len() > 0 && forall|i: int| 0 <= i < p.len() ==> 48 <= (#[trigger] p[i]) as u32 <= 57
}

/// The number a digit run denotes.
pub open spec fn digits_val(p: Seq<char>) -> int
    decreases p.len(),
{
    if p.len() == 0 {
        0
    } else {
        digits_val(p.drop_last()) * 10 + (p.last() as u32 - 48)
    }
}

proof fn lemma_digits_val_nonneg(p: Seq<char>)
    requires
        forall|i: int| 0 <= i < p.len() ==> 48 <= (#[trigger] p[i]) as u32 <= 57,
    ensures
        digits_val(p) >= 0,
    decreases p.len(),
{
    if p.len() > 0 {
        lemma_digits_val_nonneg(p.drop_last());
    }
}

proof fn lemma_digits_val_monotone(p: Seq<char>, i: int)
    requires
        forall|j: int| 0 <= j < p.len() ==> 48 <= (#[trigger] p[j]) as u32 <= 57,
        0 <= i <= p.len(),
    ensures
        digits_val(p.take(i)) <= digits_val(p),
    decreases p.len() - i,
{
    if i < p.len() {
        lemma_digits_val_monotone(p, i + 1);
        assert(p.take(i + 1).drop_last() =~= p.take(i));
        lemma_digits_val_nonneg(p.take(i));
    } else {
        assert(p.take(i) =~= p);
    }
}

/// Read a nonempty digit run as a number; `None` on any other character or
/// when the value does not fit.
#[verifier::loop_isolation(false)]
fn parse_usize(p: &str) -> (r: Option<usize>)
    ensures
        r is Some <==> is_digits(p@) && digits_val(p@) <= usize::MAX,
        r is Some ==> r->0 == digits_val(p@),
{
    let n = p.unicode_len();
    if n == 0 {
        return None;
    }
    let mut acc: usize = 0;
    let mut i: usize = 0;
    proof {
        assert(p@.take(0) =~= Seq::<char>::empty());
    }
    while i < n
        invariant
            0 <= i <= n,
            n == p@.len(),
            forall|j: int| 0 <= j < i ==> 48 <= (#[trigger] p@[j]) as u32 <= 57,
            acc == digits_val(p@.take(i as int)),
        decreases n - i,
    {
        let c = p.get_char(i);
        let cu = c as u32;
        if cu < 48 || cu > 57 {
            return None;
        }
        let d = (cu - 48) as usize;
        proof {
            assert(p@.take(i + 1).drop_last() =~= p@.take(i as int));
            assert(p@.take(i + 1).last() == p@[i as int]);
        }
        let wide: u128 = (acc as u128) * 10 + (d as u128);
        if wide > usize::MAX as u128 {
            proof {
                if is_digits(p@) {
                    lemma_digits_val_monotone(p@, i + 1);
                }
            }
            return None;
        }
        acc = wide as usize;
        i += 1;
    }
    proof {
        assert(p@.take(n as int) =~= p@);
    }
    Some(acc)
}

/// The index of the first dash of the piece; its length when it has none.
pub open spec fn first_dash(p: Seq<char>) -> int
    decreases p.len(),
{
    if p.len() == 0 {
        0
    } else if p[0] == '-' {
        0
    } else {
        1 + first_dash(p.drop_first())
    }
}

proof fn lemma_first_dash_skip(p: Seq<char>, i: int)
    requires
        0 <= i <= p.len(),
        forall|j: int| 0 <= j < i ==> (#[trigger] p[j]) != '-',
    ensures
        first_dash(p) == i + first_dash(p.skip(i)),
    decreases i,
{
    if i > 0 {
        lemma_first_dash_skip(p.drop_first(), i - 1);
        assert(p.drop_first().skip(i - 1) =~= p.skip(i));
    } else {
        assert(p.skip(0) =~= p);
    }
}

/// Whether the piece is a number, or a dash-separated number range, each side
/// fitting the machine word.
pub open spec fn valid_piece(p: Seq<char>) -> bool {
    let d = first_dash(p);
    if d == p.len() {
        is_digits(p) && digits_val(p) <= usize::MAX
    } else {
        is_digits(p.take(d)) && digits_val(p.take(d)) <= usize::MAX && is_digits(p.skip(d + 1))
            && digits_val(p.skip(d + 1)) <= usize::MAX
    }
}

/// The numbers the piece stands for: the number itself, or every number of
/// the range in ascending order; a reversed range is empty.
pub open spec fn piece_items(p: Seq<char>) -> Seq<usize> {
    let d = first_dash(p);
    if d == p.len() {
        seq![digits_val(p) as usize]
    } else {
        let a = digits_val(p.take(d)) as usize;
        let b = digits_val(p.skip(d + 1)) as usize;
        if a <= b {
            Seq::new((b - a + 1) as nat, |k: int| (a + k) as usize)
        } else {
            Seq::empty()
        }
    }
}

/// The numbers all the pieces `ps[i..]` stand for, in piece order.
pub open spec fn all_items(ps: Seq<Seq<char>>, i: int) -> Seq<usize>
    decreases ps.len() - i,
{
    if i < 0 || i >= ps.len() {
        Seq::empty()
    } else {
        piece_items(ps[i]) + all_items(ps, i + 1)
    }
}

/// Sort ascending, keeping duplicates.
#[verifier::loop_isolation(false)]
fn sort_usize(items: Vec<usize>) -> (r: Vec<usize>)
    ensures
        r@.to_multiset() == items@.to_multiset(),
        r@.len() == items@.len(),
        forall|i: int| 0 <= i < r@.len() - 1 ==> #[trigger] r@[i] <= r@[i + 1],
{
    proof {
        broadcast use vstd::seq_lib::group_to_multiset_ensures;
    }
    let mut rest = items;
    let mut out: Vec<usize> = Vec::new();
    while rest.len() > 0
        invariant
            out@.to_multiset().add(rest@.to_multiset()) == items@.to_multiset(),
            out@.len() + rest@.len() == items@.len(),
            forall|i: int| 0 <= i < out@.len() - 1 ==> #[trigger] out@[i] <= out@[i + 1],
            forall|k: int| 0 <= k < rest@.len() && out@.len() > 0 ==> out@.last() <= #[trigger] rest@[k],
        decreases rest@.len(),
    {
        let mut mi: usize = 0;
        let mut k: usize = 1;
        while k < rest.len()
            invariant
                0 <= mi < k <= rest@.len(),
                forall|j: int| 0 <= j < k ==> rest@[mi as int] <= #[trigger] rest@[j],
            decreases rest@.len() - k,
        {
            if rest[k] < rest[mi] {
                mi = k;
            }
            k += 1;
        }
        let ghost rest_before = rest@;
        let m = rest.remove(mi);
        proof {
            assert(rest@.to_multiset() =~= rest_before.to_multiset().remove(m));
            assert(out@.push(m).to_multiset() =~= out@.to_multiset().insert(m));
            assert(rest_before.to_multiset().count(m) > 0);
            assert(out@.push(m).to_multiset().add(rest@.to_multiset()) =~= items@.to_multiset());
            assert forall|k2: int| 0 <= k2 < rest@.len() implies m <= #[trigger] rest@[k2] by {
                if k2 < mi {
                    assert(rest@[k2] == rest_before[k2]);
                } else {
                    assert(rest@[k2] == rest_before[k2 + 1]);
                }
            }
        }
        out.push(m);
    }
    out
}

/// Parse a comma list of numbers and dash ranges ("2,5-8,1") into the sorted
/// list of every number named, duplicates kept; a piece that is not a number
/// or range, or does not fit the machine word, is rejected.
#[verifier::loop_isolation(false)]
pub fn parse_comma_range_num_list(s: &str) -> (r: Result<Vec<usize>, ParseNumError>)
    ensures
        r is Ok <==> (forall|i: int|
            0 <= i < split_commas(s@).len() ==> valid_piece(#[trigger] split_commas(s@)[i])),
        r is Ok ==> r->Ok_0@.to_multiset() == all_items(split_commas(s@), 0).to_multiset(),
        r is Ok ==> forall|i: int| 0 <= i < r->Ok_0@.len() - 1 ==> #[trigger] r->Ok_0@[i] <= r->Ok_0@[i + 1],
{
    let ghost ps = split_commas(s@);
    let pieces = match parse_comma_string_list(s) {
        Ok(p) => p,
        Err(_) => {
            proof {
                assert(false);
            }
            Vec::new()
        },
    };
    let mut out: Vec<usize> = Vec::new();
    let mut i: usize = 0;
    while i < pieces.len()
        invariant
            0 <= i <= pieces@.len(),
            pieces@.len() == ps.len(),
            forall|j: int| 0 <= j < pieces@.len() ==> (#[trigger] pieces@[j])@ == ps[j],
            forall|j: int| 0 <= j < i ==> valid_piece(#[trigger] ps[j]),
            all_items(ps, 0) == out@ + all_items(ps, i as int),
        decreases pieces@.len() - i,
    {
        let piece = pieces[i].as_str();
        let ghost pv = ps[i as int];
        let n = piece.unicode_len();
        let mut dash: usize = n;
        let mut j: usize = 0;
        let mut seen = false;
        while j < n
            invariant
                0 <= j <= n,
                n == pv.len(),
                piece@ == pv,
                seen ==> 0 <= dash < n && pv[dash as int] == '-' && (forall|t: int|
                    0 <= t < dash ==> (#[trigger] pv[t]) != '-'),
                !seen ==> dash == n && (forall|t: int| 0 <= t < j ==> (#[trigger] pv[t]) != '-'),
            decreases n - j,
        {
            if !seen && piece.get_char(j) == '-' {
                dash = j;
                seen = true;
            }
            j += 1;
        }
        proof {
            if seen {
                lemma_first_dash_skip(pv, dash as int);
                assert(pv.skip(dash as int)[0] == pv[dash as int]);
                assert(first_dash(pv) == dash as int);
            } else {
                lemma_first_dash_skip(pv, n as int);
                assert(pv.skip(n as int) =~= Seq::<char>::empty());
                assert(first_dash(pv) == n as int);
            }
        }
        let ghost before = out@;
        if !seen {
            let v = match parse_usize(piece) {
                Some(v) => v,
                None => {
                    return Err(ParseNumError);
                },
            };
            out.push(v);
            proof {
                assert(piece_items(pv) =~= seq![v]);
                assert(before.push(v) =~= before + seq![v]);
                assert(all_items(ps, 0) =~= out@ + all_items(ps, i + 1));
            }
        } else {
            let left = piece.substring_char(0, dash);
            let right = piece.substring_char(dash + 1, n);
            proof {
                assert(left@ =~= pv.take(dash as int));
                assert(right@ =~= pv.skip(dash + 1));
            }
            let a = match parse_usize(left) {
                Some(v) => v,
                None => {
                    return Err(ParseNumError);
                },
            };
            let b = match parse_usize(right) {
                Some(v) => v,
                None => {
                    return Err(ParseNumError);
                },
            };
            if a <= b {
                let mut kk: usize = a;
                while kk < b
                    invariant
                        a <= kk <= b,
                        out@ =~= before + Seq::new((kk - a) as nat, |t: int| (a + t) as usize),
                    decreases b - kk,
                {
                    out.push(kk);
                    proof {
                        assert(out@ =~= before + Seq::new(
                            (kk + 1 - a) as nat,
                            |t: int| (a + t) as usize,
                        ));
                    }
                    kk += 1;
                }
                out.push(b);
                proof {
                    assert(piece_items(pv) =~= Seq::new(
                        (b - a + 1) as nat,
                        |t: int| (a + t) as usize,
                    ));
                    assert(out@ =~= before + piece_items(pv));
                    assert(all_items(ps, 0) =~= out@ + all_items(ps, i + 1));
                }
            } else {
                proof {
                    assert(piece_items(pv) =~= Seq::<usize>::empty());
                    assert(out@ =~= before + piece_items(pv));
                    assert(all_items(ps, 0) =~= out@ + all_items(ps, i + 1));
                }
            }
        }
        i += 1;
    }
    proof {
        assert(all_items(ps, ps.len() as int) =~= Seq::<usize>::empty());
        assert(out@ =~= all_items(ps, 0));
    }
    let sorted = sort_usize(out);
    Ok(sorted)
}

} // verus!
