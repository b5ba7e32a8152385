use vstd::prelude::*;
use vstd::utf8::encode_utf8;
use vstd::utf8::valid_utf8;
use crate::fault::CatError;
use crate::fault::HeaderFault;
use crate::reader::CatFileReader;

verus! {

/// The UTF-8 encoding of the string `s`: the bytes it is stored as.
pub open spec fn string_bytes(s: String) -> Seq<u8> {
    encode_utf8(s@)
}

/// An ASCII blank as the name-table decoder strips it: space, tab or
/// carriage return. (Line feeds never reach a segment: they are the
/// separators.) This is deliberately narrower than stripping every Unicode
/// blank: the tables only ever carry ASCII separators, and a byte-level
/// definition keeps the codec exact.
pub open spec fn is_blank(b: u8) -> bool {
    b == 0x20 || b == 0x09 || b == 0x0D
}

/// `s` without its leading blanks.
pub open spec fn trim_start_bytes(s: Seq<u8>) -> Seq<u8>
    decreases s.len(),
{
    if s.len() > 0 && is_blank(s[0]) {
        trim_start_bytes(s.drop_first())
    } else {
        s
    }
}

/// `s` without its trailing blanks.
pub open spec fn trim_end_bytes(s: Seq<u8>) -> Seq<u8>
    decreases s.len(),
{
    if s.len() > 0 && is_blank(s.last()) {
        trim_end_bytes(s.drop_last())
    } else {
        s
    }
}

/// `s` without its trailing commas.
pub open spec fn trim_commas(s: Seq<u8>) -> Seq<u8>
    decreases s.len(),
{
    if s.len() > 0 && s.last() == 0x2C {
        trim_commas(s.drop_last())
    } else {
        s
    }
}

/// A segment of the name table, cleaned: blanks stripped from both ends,
/// then the separating commas stripped from the right.
pub open spec fn clean_segment(s: Seq<u8>) -> Seq<u8> {
    trim_commas(trim_end_bytes(trim_start_bytes(s)))
}

/// The position of the first line feed at or after `i`, or the length of `s`
/// when there is none.
pub open spec fn find_nl(s: Seq<u8>, i: int) -> int
    decreases s.len() - i,
{
    if i < 0 || i >= s.len() {
        s.len() as int
    } else if s[i] == 0x0A {
        i
    } else {
        find_nl(s, i + 1)
    }
}

pub proof fn lemma_find_nl_bounds(s: Seq<u8>, i: int)
    requires
        0 <= i <= s.len(),
    ensures
        i <= find_nl(s, i) <= s.len(),
    decreases s.len() - i,
{
    if i < s.len() && s[i] != 0x0A {
        lemma_find_nl_bounds(s, i + 1);
    }
}

/// The names the table bytes `s` list from position `i` on: each line-feed
/// separated segment, cleaned, keeping only the non-empty ones.
pub open spec fn names_of(s: Seq<u8>, i: int) -> Seq<Seq<u8>>
    decreases s.len() - i,
    when 0 <= i <= s.len()
    via names_of_decreases
{
    let k = find_nl(s, i);
    let c = clean_segment(s.subrange(i, k));
    let head = if c.len() > 0 {
        seq![c]
    } else {
        Seq::<Seq<u8>>::empty()
    };
    if k >= s.len() {
        head
    } else {
        head + names_of(s, k + 1)
    }
}

#[via_fn]
proof fn names_of_decreases(s: Seq<u8>, i: int) {
    lemma_find_nl_bounds(s, i);
}

/// Every listed name is valid UTF-8.
pub open spec fn all_names_valid(s: Seq<u8>, i: int) -> bool {
    forall|j: int| 0 <= j < names_of(s, i).len() ==> valid_utf8(#[trigger] names_of(s, i)[j])
}

/// The strings carry exactly the listed names, in order.
pub open spec fn names_match(strings: Seq<String>, names: Seq<Seq<u8>>) -> bool {
    &&& strings.len() == names.len()
    &&& forall|i: int|
        0 <= i < strings.len() ==> string_bytes(#[trigger] strings[i]) == names[i]
}

/// Relies on std's String::from_utf8: it succeeds exactly on valid UTF-8 and
/// returns the string stored as the given bytes.
#[verifier::external_body]
pub(crate) fn bytes_to_string(v: Vec<u8>) -> (r: Option<String>)
    ensures
        r matches Some(s) ==> string_bytes(s) =~= v@,
        (r is Some) <==> valid_utf8(v@),
{
    String::from_utf8(v).ok()
}

fn is_blank_byte(b: u8) -> (r: bool)
    ensures
        r == is_blank(b),
{
    b == 0x20 || b == 0x09 || b == 0x0D
}

/// Blanks stripped from the front reach the first non-blank byte.
proof fn lemma_trim_start_index(t: Seq<u8>, a: int)
    requires
        0 <= a <= t.len(),
        forall|j: int| 0 <= j < a ==> is_blank(#[trigger] t[j]),
        a < t.len() ==> !is_blank(t[a]),
    ensures
        trim_start_bytes(t) =~= t.subrange(a, t.len() as int),
    decreases a,
{
    if a == 0 {
        assert(t.subrange(0, t.len() as int) =~= t);
    } else {
        assert(is_blank(t[0]));
        let d = t.drop_first();
        assert(d =~= t.subrange(1, t.len() as int));
        lemma_trim_start_index(d, a - 1);
        assert(d.subrange(a - 1, d.len() as int) =~= t.subrange(a, t.len() as int));
    }
}

/// Blanks stripped from the back reach the last non-blank byte.
proof fn lemma_trim_end_index(t: Seq<u8>, b: int)
    requires
        0 <= b <= t.len(),
        forall|j: int| b <= j < t.len() ==> is_blank(#[trigger] t[j]),
        b > 0 ==> !is_blank(t[b - 1]),
    ensures
        trim_end_bytes(t) =~= t.subrange(0, b),
    decreases t.len(),
{
    if b == t.len() {
        if t.len() > 0 && is_blank(t.last()) {
            assert(false);
        }
        assert(t.subrange(0, t.len() as int) =~= t);
    } else {
        assert(is_blank(t.last()));
        let d = t.drop_last();
        lemma_trim_end_index(d, b);
        assert(d.subrange(0, b) =~= t.subrange(0, b));
    }
}

/// Commas stripped from the back reach the last non-comma byte.
proof fn lemma_trim_commas_index(t: Seq<u8>, b: int)
    requires
        0 <= b <= t.len(),
        forall|j: int| b <= j < t.len() ==> #[trigger] t[j] == 0x2C,
        b > 0 ==> t[b - 1] != 0x2C,
    ensures
        trim_commas(t) =~= t.subrange(0, b),
    decreases t.len(),
{
    if b == t.len() {
        if t.len() > 0 && t.last() == 0x2C {
            assert(false);
        }
        assert(t.subrange(0, t.len() as int) =~= t);
    } else {
        assert(t.last() == 0x2C);
        let d = t.drop_last();
        lemma_trim_commas_index(d, b);
        assert(d.subrange(0, b) =~= t.subrange(0, b));
    }
}

/// Cleaning the segment `s[i .. k]` yields exactly `s[lo .. hi2]` when `lo`,
/// `hi` and `hi2` mark where its leading blanks, trailing blanks and
/// separating commas end.
proof fn lemma_clean_by_indices(s: Seq<u8>, i: int, k: int, lo: int, hi: int, hi2: int)
    requires
        0 <= i <= lo <= k <= s.len(),
        lo <= hi2 <= hi <= k,
        forall|j: int| i <= j < lo ==> is_blank(#[trigger] s[j]),
        lo < k ==> !is_blank(s[lo]),
        forall|j: int| hi <= j < k ==> is_blank(#[trigger] s[j]),
        hi > lo ==> !is_blank(s[hi - 1]),
        forall|j: int| hi2 <= j < hi ==> #[trigger] s[j] == 0x2C,
        hi2 > lo ==> s[hi2 - 1] != 0x2C,
    ensures
        clean_segment(s.subrange(i, k)) =~= s.subrange(lo, hi2),
{
    let seg = s.subrange(i, k);
    lemma_trim_start_index(seg, lo - i);
    let t1 = seg.subrange(lo - i, seg.len() as int);
    assert(t1 =~= s.subrange(lo, k));
    lemma_trim_end_index(t1, hi - lo);
    let t2 = t1.subrange(0, hi - lo);
    assert(t2 =~= s.subrange(lo, hi));
    lemma_trim_commas_index(t2, hi2 - lo);
    assert(t2.subrange(0, hi2 - lo) =~= s.subrange(lo, hi2));
}

/// Splits, cleans and decodes the names listed from position `from` of the
/// table bytes, appending them to `acc`. Fails exactly when a listed name is
/// not valid UTF-8.
#[verifier::loop_isolation(false)]
#[verifier::rlimit(100)]
fn collect_names(buf: &Vec<u8>, from: usize, acc: &mut Vec<String>) -> (r: Result<(), ()>)
    requires
        from <= buf@.len(),
    ensures
        r is Ok ==> {
            &&& final(acc)@.len() == old(acc)@.len() + names_of(buf@, from as int).len()
            &&& final(acc)@.subrange(0, old(acc)@.len() as int) =~= old(acc)@
            &&& names_match(
                final(acc)@.subrange(old(acc)@.len() as int, final(acc)@.len() as int),
                names_of(buf@, from as int),
            )
        },
        (r is Ok) <==> all_names_valid(buf@, from as int),
        r is Err ==> final(acc)@.len() >= old(acc)@.len() && final(acc)@.subrange(
            0,
            old(acc)@.len() as int,
        ) =~= old(acc)@,
    decreases buf@.len() - from,
{
    let len = buf.len();
    proof {
        lemma_find_nl_bounds(buf@, from as int);
    }

    let mut k: usize = from;
    while k < len && buf[k] != 0x0A
        invariant
            from <= k <= len,
            find_nl(buf@, from as int) == find_nl(buf@, k as int),
        decreases len - k,
    {
        k = k + 1;
    }
    proof {
        assert(find_nl(buf@, from as int) == k as int);
    }

    let mut lo: usize = from;
    while lo < k && is_blank_byte(buf[lo])
        invariant
            from <= lo <= k,
            forall|j: int| from <= j < lo as int ==> is_blank(#[trigger] buf@[j]),
        decreases k - lo,
    {
        lo = lo + 1;
    }
    let mut hi: usize = k;
    while hi > lo && is_blank_byte(buf[hi - 1])
        invariant
            lo <= hi <= k,
            forall|j: int| hi as int <= j < k as int ==> is_blank(#[trigger] buf@[j]),
        decreases hi,
    {
        hi = hi - 1;
    }
    let mut hi2: usize = hi;
    while hi2 > lo && buf[hi2 - 1] == 0x2C
        invariant
            lo <= hi2 <= hi,
            forall|j: int| hi2 as int <= j < hi as int ==> #[trigger] buf@[j] == 0x2C,
        decreases hi2,
    {
        hi2 = hi2 - 1;
    }
    proof {
        lemma_clean_by_indices(
            buf@,
            from as int,
            k as int,
            lo as int,
            hi as int,
            hi2 as int,
        );
    }
    let ghost cleaned = clean_segment(buf@.subrange(from as int, k as int));
    let ghost entry = acc@.len() as int;

    if hi2 > lo {
        let mut nb: Vec<u8> = Vec::new();
        let mut j: usize = lo;
        while j < hi2
            invariant
                lo <= j <= hi2,
                nb@ =~= buf@.subrange(lo as int, j as int),
            decreases hi2 - j,
        {
            nb.push(buf[j]);
            j = j + 1;
            proof {
                assert(nb@ =~= buf@.subrange(lo as int, j as int));
            }
        }
        proof {
            assert(nb@ =~= cleaned);
        }
        match bytes_to_string(nb) {
            Some(s) => {
                acc.push(s);
            },
            None => {
                proof {
                    assert(names_of(buf@, from as int)[0] == cleaned);
                    assert(!all_names_valid(buf@, from as int));
                    assert(acc@.subrange(0, old(acc)@.len() as int) =~= old(acc)@);
                }
                return Err(());
            },
        }
    }

    if k < len {
        let ghost pre = acc@;
        let r = collect_names(buf, k + 1, acc);
        proof {
            let names = names_of(buf@, from as int);
            let tail = names_of(buf@, k as int + 1);
            if cleaned.len() > 0 {
                assert(names =~= seq![cleaned] + tail);
            } else {
                assert(names =~= tail);
            }
            if r is Ok {
                assert(acc@.subrange(0, pre.len() as int) =~= pre);
                assert(acc@.subrange(0, old(acc)@.len() as int) =~= old(acc)@);
                assert forall|i: int| 0 <= i < names.len() implies string_bytes(
                    #[trigger] acc@.subrange(old(acc)@.len() as int, acc@.len() as int)[i],
                ) == names[i] by {
                    if cleaned.len() > 0 {
                        if i == 0 {
                            assert(acc@[old(acc)@.len() as int] == pre[entry]);
                        } else {
                            assert(acc@.subrange(pre.len() as int, acc@.len() as int)[i - 1]
                                == acc@[pre.len() + i - 1]);
                        }
                    } else {
                        assert(acc@.subrange(pre.len() as int, acc@.len() as int)[i]
                            == acc@[pre.len() + i]);
                    }
                }
                assert(all_names_valid(buf@, from as int)) by {
                    assert forall|j: int| 0 <= j < names.len() implies valid_utf8(
                        #[trigger] names[j],
                    ) by {
                        if cleaned.len() > 0 && j == 0 {
                            assert(valid_utf8(cleaned));
                        } else {
                            let jj = if cleaned.len() > 0 {
                                j - 1
                            } else {
                                j
                            };
                            assert(valid_utf8(tail[jj]));
                        }
                    }
                }
            } else {
                assert(!all_names_valid(buf@, k as int + 1));
                let jj = choose|jj: int|
                    0 <= jj < tail.len() && !valid_utf8(#[trigger] tail[jj]);
                if cleaned.len() > 0 {
                    assert(names[jj + 1] == tail[jj]);
                } else {
                    assert(names[jj] == tail[jj]);
                }
                assert(!all_names_valid(buf@, from as int));
                assert(acc@.subrange(0, pre.len() as int) =~= pre);
                assert(pre.subrange(0, old(acc)@.len() as int) =~= old(acc)@);
                assert forall|j: int| 0 <= j < old(acc)@.len() implies acc@[j] == old(acc)@[j] by {
                    assert(acc@.subrange(0, pre.len() as int)[j] == acc@[j]);
                    assert(pre.subrange(0, old(acc)@.len() as int)[j] == pre[j]);
                }
                assert(acc@.subrange(0, old(acc)@.len() as int) =~= old(acc)@);
            }
        }
        r
    } else {
        proof {
            let names = names_of(buf@, from as int);
            if cleaned.len() > 0 {
                assert(names =~= seq![cleaned]);
                assert(acc@.subrange(old(acc)@.len() as int, acc@.len() as int)[0] == acc@[
                    old(acc)@.len() as int]);
            } else {
                assert(names =~= Seq::<Seq<u8>>::empty());
            }
            assert(acc@.subrange(0, old(acc)@.len() as int) =~= old(acc)@);
        }
        Ok(())
    }
}

impl CatFileReader {
    /// Reads the name table stored at `[offset, offset + size)` and returns
    /// the names it lists: each line-feed separated entry with surrounding
    /// blanks and separating commas stripped, empty entries dropped. Fails
    /// with a malformed-header fault when a listed name is not valid UTF-8,
    /// and with an input fault when the table runs past the input.
    pub fn read_strings(&mut self, offset: u64, size: u64) -> (r: Result<Vec<String>, CatError>)
        requires
            old(self).wf(),
        ensures
            final(self).wf(),
            *final(self) == *old(self),
            offset + size > old(self).data@.len() ==> r == Err::<Vec<String>, CatError>(
                CatError::Io(offset),
            ),
            offset + size <= old(self).data@.len() ==> {
                let tbl = old(self).data@.subrange(offset as int, offset as int + size as int);
                &&& all_names_valid(tbl, 0) ==> {
                    &&& r matches Ok(names) && names_match(names@, names_of(tbl, 0))
                }
                &&& !all_names_valid(tbl, 0) ==> r == Err::<Vec<String>, CatError>(
                    CatError::MalformedHeader(offset, HeaderFault::BadStringTable),
                )
            },
    {
        let buf = match self.read_bytes_at(offset, size) {
            Ok(v) => v,
            Err(e) => return Err(e),
        };
        let mut names: Vec<String> = Vec::new();
        match collect_names(&buf, 0, &mut names) {
            Ok(()) => {
                proof {
                    let tbl = self.data@.subrange(offset as int, offset as int + size as int);
                    assert(names@.subrange(0, names@.len() as int) =~= names@);
                }
                Ok(names)
            },
            Err(()) => Err(CatError::MalformedHeader(offset, HeaderFault::BadStringTable)),
        }
    }
}

} // verus!
