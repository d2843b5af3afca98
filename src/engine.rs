//! The two engines: the decoder, a chunked state machine that turns BadSV
//! bytes into a grid of records, and the encoder, which writes a grid out
//! with fresh delimiters between fields and a terminator after each record.

use vstd::prelude::*;
use crate::codec::Codec;
use crate::text::string_from_chars;

verus! {

/// A grid of records, each a sequence of fields, each a text.
pub type Grid = Seq<Seq<Seq<char>>>;

/// The decoder's state: the pending bytes, the record in progress and the
/// records completed so far.
pub type Progress = (Seq<u8>, Seq<Seq<char>>, Grid);

/// The state before any byte is read.
pub open spec fn start() -> Progress {
    (Seq::empty(), Seq::empty(), Seq::empty())
}

/// `s` without its trailing newlines.
pub open spec fn trim_newlines(s: Seq<char>) -> Seq<char>
    decreases s.len(),
{
    if s.len() > 0 && s.last() == '\n' {
        trim_newlines(s.drop_last())
    } else {
        s
    }
}

/// One chunk read: the chunk joins the pending bytes, which are then
/// decoded. Text ending in a newline closes the record; an invalid unit
/// closes the field; otherwise the bytes stay pending.
pub open spec fn step(c: Codec, st: Progress, chunk: Seq<u8>) -> Progress {
    let buf = st.0 + chunk;
    match c.attempt(buf) {
        Ok(s) => if s.len() > 0 && s.last() == '\n' {
            (Seq::empty(), Seq::empty(), st.2.push(st.1.push(trim_newlines(s))))
        } else {
            (buf, st.1, st.2)
        },
        Err((s, _)) => (Seq::empty(), st.1.push(s), st.2),
    }
}

/// The state after reading `b` chunk by chunk, one code unit at a time (the
/// last chunk may be shorter).
pub open spec fn feed(c: Codec, st: Progress, b: Seq<u8>) -> Progress
    decreases b.len(),
{
    if b.len() == 0 {
        st
    } else if b.len() <= c.unit() {
        step(c, st, b)
    } else {
        feed(c, step(c, st, b.take(c.unit())), b.skip(c.unit()))
    }
}

/// The grid that the bytes `b` decode to. A record that no terminator
/// closes is not part of it.
pub open spec fn decoded(c: Codec, b: Seq<u8>) -> Grid {
    feed(c, start(), b).2
}

/// The characters of `cs` without its trailing newlines.
fn trimmed(cs: &Vec<char>) -> (r: Vec<char>)
    ensures
        r@ == trim_newlines(cs@),
{
    let mut end: usize = cs.len();
    assert(cs@.take(end as int) =~= cs@);
    while end > 0 && cs[end - 1] == '\n'
        invariant
            0 <= end <= cs@.len(),
            trim_newlines(cs@) == trim_newlines(cs@.take(end as int)),
        decreases end,
    {
        assert(cs@.take(end as int).drop_last() =~= cs@.take(end - 1));
        end = end - 1;
    }
    let mut r: Vec<char> = Vec::new();
    let mut j: usize = 0;
    while j < end
        invariant
            0 <= j <= end <= cs@.len(),
            r@ == cs@.take(j as int),
        decreases end - j,
    {
        r.push(cs[j]);
        assert(r@ =~= cs@.take(j + 1));
        j = j + 1;
    }
    r
}

/// Decodes BadSV bytes written in the given variant into a grid.
pub fn parse_with(data: &[u8], codec: Codec) -> (r: Vec<Vec<String>>)
    ensures
        r.deep_view() == decoded(codec, data@),
{
    let w = codec.width();
    let n = data.len();
    let mut out: Vec<Vec<String>> = Vec::new();
    let mut record: Vec<String> = Vec::new();
    let mut buffer: Vec<u8> = Vec::new();
    let mut i: usize = 0;
    proof {
        assert(data@.skip(0) =~= data@);
        assert(out.deep_view() =~= Seq::<Seq<Seq<char>>>::empty());
        assert(record.deep_view() =~= Seq::<Seq<char>>::empty());
    }
    while i < n
        invariant
            n == data@.len(),
            w as int == codec.unit(),
            0 <= i <= n,
            feed(codec, (buffer@, record.deep_view(), out.deep_view()), data@.skip(i as int))
                == feed(codec, start(), data@),
        decreases n - i,
    {
        let ghost st = (buffer@, record.deep_view(), out.deep_view());
        let ghost rest = data@.skip(i as int);
        let end = if n - i < w {
            n
        } else {
            i + w
        };
        let ghost chunk = data@.subrange(i as int, end as int);
        let mut j = i;
        while j < end
            invariant
                i <= j <= end <= n,
                n == data@.len(),
                buffer@ == st.0 + data@.subrange(i as int, j as int),
            decreases end - j,
        {
            buffer.push(data[j]);
            assert(buffer@ =~= st.0 + data@.subrange(i as int, j + 1));
            j = j + 1;
        }
        proof {
            if rest.len() <= w {
                assert(chunk =~= rest);
                assert(data@.skip(end as int).len() == 0);
            } else {
                assert(chunk =~= rest.take(w as int));
                assert(data@.skip(end as int) =~= rest.skip(w as int));
            }
        }
        let ghost next = step(codec, st, chunk);
        match codec.decode_chars(buffer.as_slice()) {
            Ok(cs) => {
                if cs.len() > 0 && cs[cs.len() - 1] == '\n' {
                    let field = string_from_chars(&trimmed(&cs));
                    let ghost f = field@;
                    record.push(field);
                    assert(record.deep_view() =~= st.1.push(f));
                    let ghost full = record.deep_view();
                    out.push(record);
                    assert(out.deep_view() =~= st.2.push(full));
                    record = Vec::new();
                    buffer = Vec::new();
                    proof {
                        assert(out.deep_view() =~= next.2);
                        assert(record.deep_view() =~= next.1);
                        assert(buffer@ =~= next.0);
                    }
                }
            },
            Err((cs, _)) => {
                let field = string_from_chars(&cs);
                let ghost f = field@;
                record.push(field);
                assert(record.deep_view() =~= st.1.push(f));
                buffer = Vec::new();
                proof {
                    assert(record.deep_view() =~= next.1);
                    assert(buffer@ =~= next.0);
                }
            },
        }
        i = end;
    }
    proof {
        assert(data@.skip(n as int).len() == 0);
    }
    out
}

} // verus!

verus! {

/// The number of delimiters in a record: one between each two fields.
pub open spec fn gaps(r: Seq<Seq<char>>) -> int {
    if r.len() == 0 {
        0
    } else {
        r.len() - 1
    }
}

/// The fields of a record, encoded, with `ds[j]` between field `j` and
/// field `j + 1`.
pub open spec fn fields_bytes(c: Codec, r: Seq<Seq<char>>, ds: Seq<Seq<u8>>) -> Seq<u8>
    decreases r.len(),
{
    if r.len() == 0 {
        Seq::empty()
    } else if r.len() == 1 {
        c.encoded(r[0])
    } else {
        fields_bytes(c, r.drop_last(), ds) + ds[r.len() - 2] + c.encoded(r.last())
    }
}

/// A record, encoded and terminated.
pub open spec fn record_bytes(c: Codec, r: Seq<Seq<char>>, ds: Seq<Seq<u8>>) -> Seq<u8> {
    fields_bytes(c, r, ds) + c.terminator()
}

/// A grid, encoded, with `dss[i]` the delimiters of record `i`.
pub open spec fn grid_bytes(c: Codec, g: Grid, dss: Seq<Seq<Seq<u8>>>) -> Seq<u8>
    decreases g.len(),
{
    if g.len() == 0 {
        Seq::empty()
    } else {
        grid_bytes(c, g.drop_last(), dss.drop_last()) + record_bytes(c, g.last(), dss.last())
    }
}

/// `dss` gives each record of `g` one delimiter of the variant per gap.
pub open spec fn delimiters_fit(c: Codec, g: Grid, dss: Seq<Seq<Seq<u8>>>) -> bool {
    &&& dss.len() == g.len()
    &&& forall|i: int| 0 <= i < g.len() ==> #[trigger] dss[i].len() == gaps(g[i])
    &&& forall|i: int, j: int|
        0 <= i < dss.len() && 0 <= j < dss[i].len() ==> c.delimits(#[trigger] dss[i][j])
}

/// `b` is an encoding of `g`: the grid's bytes with some choice of
/// delimiters of the variant.
pub open spec fn encodes(c: Codec, g: Grid, b: Seq<u8>) -> bool {
    exists|dss: Seq<Seq<Seq<u8>>>| delimiters_fit(c, g, dss) && b == grid_bytes(c, g, dss)
}

/// The same delimiter `d` in every gap of `g`.
pub open spec fn uniform(g: Grid, d: Seq<u8>) -> Seq<Seq<Seq<u8>>> {
    Seq::new(g.len(), |i: int| Seq::new(gaps(g[i]) as nat, |j: int| d))
}

/// Appends the terminator of the variant.
fn push_terminator(out: &mut Vec<u8>, codec: Codec)
    ensures
        final(out)@ == old(out)@ + codec.terminator(),
{
    let w = codec.width();
    let mut k: usize = 1;
    while k < w
        invariant
            1 <= k <= w,
            w as int == codec.unit(),
            out@ == old(out)@ + Seq::new((k - 1) as nat, |i: int| 0u8),
        decreases w - k,
    {
        out.push(0);
        assert(out@ =~= old(out)@ + Seq::new(k as nat, |i: int| 0u8));
        k = k + 1;
    }
    out.push(0x0a);
    assert(out@ =~= old(out)@ + codec.terminator());
}

/// Encodes a grid; each delimiter is the one `pick` selects, or where there
/// is no `pick`, a fresh random one. The ghost result is the delimiters used.
fn compile_core(data: &Vec<Vec<String>>, codec: Codec, pick: Option<u32>) -> (r: (
    Vec<u8>,
    Ghost<Seq<Seq<Seq<u8>>>>,
))
    ensures
        delimiters_fit(codec, data.deep_view(), r.1@),
        r.0@ == grid_bytes(codec, data.deep_view(), r.1@),
        pick matches Some(p) ==> r.1@ == uniform(data.deep_view(), codec.delimiter_for(p)),
{
    let ghost g = data.deep_view();
    let mut out: Vec<u8> = Vec::new();
    let ghost mut dss: Seq<Seq<Seq<u8>>> = Seq::empty();
    let mut i: usize = 0;
    assert(g.take(0) =~= Seq::<Seq<Seq<char>>>::empty());
    while i < data.len()
        invariant
            g == data.deep_view(),
            0 <= i <= data@.len(),
            delimiters_fit(codec, g.take(i as int), dss),
            out@ == grid_bytes(codec, g.take(i as int), dss),
            pick matches Some(p) ==> dss == uniform(g.take(i as int), codec.delimiter_for(p)),
        decreases data@.len() - i,
    {
        let rec = &data[i];
        let ghost r = g[i as int];
        assert(r == rec.deep_view());
        let ghost base = out@;
        let ghost mut ds: Seq<Seq<u8>> = Seq::empty();
        let mut j: usize = 0;
        assert(r.take(0) =~= Seq::<Seq<char>>::empty());
        assert(base + Seq::<u8>::empty() =~= base);
        while j < rec.len()
            invariant
                r == rec.deep_view(),
                0 <= j <= rec@.len(),
                ds.len() == gaps(r.take(j as int)),
                forall|k: int| 0 <= k < ds.len() ==> codec.delimits(#[trigger] ds[k]),
                pick matches Some(p) ==> ds == Seq::new(gaps(r.take(j as int)) as nat, |k: int| codec.delimiter_for(p)),
                out@ == base + fields_bytes(codec, r.take(j as int), ds),
            decreases rec@.len() - j,
        {
            let ghost before = out@;
            let ghost ds0 = ds;
            if j > 0 {
                let mut d = match pick {
                    Some(p) => codec.delimiter(p),
                    None => codec.get_delimiter(),
                };
                proof {
                    ds = ds.push(d@);
                }
                out.append(&mut d);
            }
            let mut e = codec.encode(rec[j].as_str());
            out.append(&mut e);
            proof {
                let rj = r.take(j + 1);
                assert(rj.drop_last() =~= r.take(j as int));
                assert(rj.last() == r[j as int]);
                if j == 0 {
                    assert(out@ =~= base + fields_bytes(codec, rj, ds));
                } else {
                    assert(ds[j - 1] == ds.last());
                    assert(out@ =~= base + fields_bytes(codec, rj, ds)) by {
                        assert(fields_bytes(codec, r.take(j as int), ds) == fields_bytes(codec, r.take(j as int), ds0)) by {
                            lemma_fields_bytes_prefix(codec, r.take(j as int), ds0, ds);
                        }
                    }
                }
                if pick is Some {
                    assert(ds =~= Seq::new(gaps(rj) as nat, |k: int| codec.delimiter_for(pick->0)));
                }
            }
            j = j + 1;
        }
        push_terminator(&mut out, codec);
        proof {
            assert(r.take(rec@.len() as int) =~= r);
            let gi = g.take(i + 1);
            assert(gi.drop_last() =~= g.take(i as int));
            let dss1 = dss.push(ds);
            assert(dss1.drop_last() =~= dss);
            assert(out@ =~= grid_bytes(codec, gi, dss1));
            assert forall|a: int, b: int| 0 <= a < dss1.len() && 0 <= b < dss1[a].len() implies codec.delimits(#[trigger] dss1[a][b]) by {
                if a < dss.len() {
                    assert(dss1[a] == dss[a]);
                }
            }
            assert forall|a: int| 0 <= a < gi.len() implies #[trigger] dss1[a].len() == gaps(gi[a]) by {
                if a < dss.len() {
                    assert(dss1[a] == dss[a]);
                    assert(gi[a] == g.take(i as int)[a]);
                }
            }
            if pick is Some {
                assert(dss1 =~= uniform(gi, codec.delimiter_for(pick->0)));
            }
            dss = dss1;
        }
        i = i + 1;
    }
    assert(g.take(data@.len() as int) =~= g);
    (out, Ghost(dss))
}

/// The fields' bytes depend only on the delimiters of the record's gaps.
proof fn lemma_fields_bytes_prefix(c: Codec, r: Seq<Seq<char>>, ds: Seq<Seq<u8>>, more: Seq<Seq<u8>>)
    requires
        ds.len() >= gaps(r),
        more.len() >= ds.len(),
        forall|k: int| 0 <= k < ds.len() ==> #[trigger] more[k] == ds[k],
    ensures
        fields_bytes(c, r, ds) == fields_bytes(c, r, more),
    decreases r.len(),
{
    if r.len() > 1 {
        lemma_fields_bytes_prefix(c, r.drop_last(), ds, more);
    }
}

/// Encodes a grid as BadSV in the given variant, with a fresh random
/// delimiter in each gap between two fields.
pub fn compile_with(data: &Vec<Vec<String>>, codec: Codec) -> (r: Vec<u8>)
    ensures
        encodes(codec, data.deep_view(), r@),
{
    let (out, Ghost(dss)) = compile_core(data, codec, None);
    out
}

/// Encodes a grid as BadSV in the given variant, with the delimiter that
/// `pick` selects in every gap: a deterministic stand-in for the random
/// source.
pub fn compile_with_pick(data: &Vec<Vec<String>>, codec: Codec, pick: u32) -> (r: Vec<u8>)
    ensures
        r@ == grid_bytes(codec, data.deep_view(), uniform(data.deep_view(), codec.delimiter_for(pick))),
        encodes(codec, data.deep_view(), r@),
{
    let (out, Ghost(dss)) = compile_core(data, codec, Some(pick));
    out
}

} // verus!
