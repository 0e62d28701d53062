//! The `multipart/form-data` wire format, stated over byte sequences, and the
//! routines that render its fixed fragments.
use vstd::prelude::*;
use vstd::string::StringSliceAdditionalSpecFns;
use vstd::utf8::encode_utf8;

verus! {

/// Carriage return, line feed.
pub open spec fn crlf() -> Seq<u8> {
    seq![13u8, 10u8]
}

/// The two dashes that open a delimiter line and close the final one.
pub open spec fn dashes() -> Seq<u8> {
    seq![45u8, 45u8]
}

/// The UTF-8 bytes of a text.
pub open spec fn text(s: Seq<char>) -> Seq<u8> {
    encode_utf8(s)
}

/// What the header block of a part is made of.
pub struct HeadView {
    pub key: Seq<char>,
    pub filename: Option<Seq<char>>,
    pub mime: Option<Seq<char>>,
    pub headers: Seq<(Seq<char>, Seq<char>)>,
}

pub open spec fn opt_chars(o: Option<String>) -> Option<Seq<char>> {
    match o {
        Some(s) => Some(s@),
        None => None,
    }
}

pub open spec fn header_views(hs: Seq<(String, String)>) -> Seq<(Seq<char>, Seq<char>)> {
    hs.map_values(|h: (String, String)| (h.0@, h.1@))
}

pub open spec fn head_view(
    key: String,
    filename: Option<String>,
    mime: Option<String>,
    headers: Seq<(String, String)>,
) -> HeadView {
    HeadView {
        key: key@,
        filename: opt_chars(filename),
        mime: opt_chars(mime),
        headers: header_views(headers),
    }
}

pub open spec fn disposition() -> Seq<u8> {
    "content-disposition: form-data; name=".spec_bytes()
}

pub open spec fn filename_bytes(f: Option<Seq<char>>) -> Seq<u8> {
    match f {
        Some(n) => "; filename=\"".spec_bytes() + text(n) + "\"".spec_bytes(),
        None => Seq::empty(),
    }
}

pub open spec fn mime_bytes(m: Option<Seq<char>>) -> Seq<u8> {
    match m {
        Some(t) => crlf() + "content-type: ".spec_bytes() + text(t),
        None => Seq::empty(),
    }
}

pub open spec fn header_line(h: (Seq<char>, Seq<char>)) -> Seq<u8> {
    crlf() + text(h.0) + ": ".spec_bytes() + text(h.1)
}

pub open spec fn header_lines(hs: Seq<(Seq<char>, Seq<char>)>) -> Seq<u8>
    decreases hs.len(),
{
    if hs.len() == 0 {
        Seq::empty()
    } else {
        header_lines(hs.drop_last()) + header_line(hs.last())
    }
}

/// The delimiter line that opens a part.
pub open spec fn delimiter_line(b: Seq<char>) -> Seq<u8> {
    dashes() + text(b) + crlf()
}

/// The disposition that names a part.
pub open spec fn named(key: Seq<char>) -> Seq<u8> {
    disposition() + text(key)
}

/// What follows the name in a header block: the optional file name and media
/// type, the extra headers and the blank line.
pub open spec fn head_rest(h: HeadView) -> Seq<u8> {
    filename_bytes(h.filename) + mime_bytes(h.mime) + header_lines(h.headers) + crlf() + crlf()
}

/// Everything of a part that comes before its content.
pub open spec fn head_bytes(b: Seq<char>, h: HeadView) -> Seq<u8> {
    delimiter_line(b) + named(h.key) + head_rest(h)
}

pub open spec fn part_bytes(b: Seq<char>, p: (HeadView, Seq<u8>)) -> Seq<u8> {
    head_bytes(b, p.0) + p.1 + crlf()
}

/// The parts, one after the other, in order.
pub open spec fn parts_bytes(b: Seq<char>, ps: Seq<(HeadView, Seq<u8>)>) -> Seq<u8>
    decreases ps.len(),
{
    if ps.len() == 0 {
        Seq::empty()
    } else {
        parts_bytes(b, ps.drop_last()) + part_bytes(b, ps.last())
    }
}

/// The closing delimiter `--<boundary>--`.
pub open spec fn closing(b: Seq<char>) -> Seq<u8> {
    dashes() + text(b) + dashes()
}

/// A whole multipart body: every part, then the closing delimiter.
pub open spec fn form_bytes(b: Seq<char>, ps: Seq<(HeadView, Seq<u8>)>) -> Seq<u8> {
    parts_bytes(b, ps) + closing(b)
}

/// Where the disposition line of the part at `i` starts in a body.
pub open spec fn name_offset(b: Seq<char>, ps: Seq<(HeadView, Seq<u8>)>, i: int) -> int {
    (parts_bytes(b, ps.take(i)).len() + 2 + text(b).len() + 2) as int
}

/// The body of several parts is the first part followed by the others.
pub proof fn lemma_parts_front(b: Seq<char>, ps: Seq<(HeadView, Seq<u8>)>)
    requires
        ps.len() > 0,
    ensures
        parts_bytes(b, ps) == part_bytes(b, ps[0]) + parts_bytes(b, ps.skip(1)),
    decreases ps.len(),
{
    if ps.len() == 1 {
        assert(ps.drop_last() =~= Seq::<(HeadView, Seq<u8>)>::empty());
        assert(ps.skip(1) =~= Seq::<(HeadView, Seq<u8>)>::empty());
        assert(parts_bytes(b, ps) =~= part_bytes(b, ps[0]) + parts_bytes(b, ps.skip(1)));
    } else {
        let dl = ps.drop_last();
        lemma_parts_front(b, dl);
        assert(ps.skip(1).drop_last() =~= dl.skip(1));
        assert(ps.skip(1).last() == ps.last());
        assert(dl[0] == ps[0]);
        assert(parts_bytes(b, ps) =~= part_bytes(b, ps[0]) + parts_bytes(b, ps.skip(1)));
    }
}

/// The body of the first `k` parts begins the body of all of them.
pub proof fn lemma_parts_prefix(b: Seq<char>, ps: Seq<(HeadView, Seq<u8>)>, k: int)
    requires
        0 <= k <= ps.len(),
    ensures
        parts_bytes(b, ps.take(k)).len() <= parts_bytes(b, ps).len(),
        parts_bytes(b, ps).take(parts_bytes(b, ps.take(k)).len() as int) == parts_bytes(
            b,
            ps.take(k),
        ),
    decreases ps.len(),
{
    if k == ps.len() {
        assert(ps.take(k) =~= ps);
        assert(parts_bytes(b, ps).take(parts_bytes(b, ps).len() as int) =~= parts_bytes(b, ps));
    } else {
        let dl = ps.drop_last();
        lemma_parts_prefix(b, dl, k);
        assert(dl.take(k) =~= ps.take(k));
        let whole = parts_bytes(b, ps);
        assert(whole == parts_bytes(b, dl) + part_bytes(b, ps.last()));
        let n = parts_bytes(b, ps.take(k)).len() as int;
        assert(whole.take(n) =~= parts_bytes(b, dl).take(n));
    }
}

/// Adding one part appends its bytes.
pub proof fn lemma_parts_take_next(b: Seq<char>, ps: Seq<(HeadView, Seq<u8>)>, i: int)
    requires
        0 <= i < ps.len(),
    ensures
        parts_bytes(b, ps.take(i + 1)) == parts_bytes(b, ps.take(i)) + part_bytes(b, ps[i]),
{
    assert(ps.take(i + 1).drop_last() =~= ps.take(i));
    assert(ps.take(i + 1).last() == ps[i]);
}

/// The disposition line of the part at `i` stands at `name_offset`.
pub proof fn lemma_name_at(b: Seq<char>, ps: Seq<(HeadView, Seq<u8>)>, i: int)
    requires
        0 <= i < ps.len(),
    ensures
        name_offset(b, ps, i) + disposition().len() + text(ps[i].0.key).len() <= form_bytes(
            b,
            ps,
        ).len(),
        form_bytes(b, ps).subrange(
            name_offset(b, ps, i),
            name_offset(b, ps, i) + disposition().len() + text(ps[i].0.key).len(),
        ) == disposition() + text(ps[i].0.key),
{
    let whole = form_bytes(b, ps);
    lemma_parts_prefix(b, ps, i + 1);
    lemma_parts_take_next(b, ps, i);
    let before = parts_bytes(b, ps.take(i));
    let here = part_bytes(b, ps[i]);
    let upto = parts_bytes(b, ps.take(i + 1));
    let lead = delimiter_line(b);
    let nm = named(ps[i].0.key);
    let s = name_offset(b, ps, i);
    assert(lead.len() == 2 + text(b).len() + 2);
    assert(s == before.len() + lead.len());
    assert(here.subrange(lead.len() as int, (lead.len() + nm.len()) as int) =~= nm);
    assert(upto.subrange(s, s + nm.len()) =~= here.subrange(
        lead.len() as int,
        (lead.len() + nm.len()) as int,
    ));
    assert(whole.subrange(s, s + nm.len()) =~= upto.subrange(s, s + nm.len()));
}

/// The disposition line of an earlier part stands before that of a later one.
pub proof fn lemma_name_order(b: Seq<char>, ps: Seq<(HeadView, Seq<u8>)>, i: int, j: int)
    requires
        0 <= i < j < ps.len(),
    ensures
        name_offset(b, ps, i) < name_offset(b, ps, j),
{
    lemma_parts_take_next(b, ps, i);
    let pj = ps.take(j);
    lemma_parts_prefix(b, pj, i + 1);
    assert(pj.take(i + 1) =~= ps.take(i + 1));
    assert(part_bytes(b, ps[i]).len() > delimiter_line(b).len());
}

/// A body made of the given parts names each of them, through its
/// disposition line, in the order of the parts.
pub proof fn lemma_names_in_order(b: Seq<char>, ps: Seq<(HeadView, Seq<u8>)>)
    ensures
        forall|i: int|
            #![trigger ps[i]]
            0 <= i < ps.len() ==> name_offset(b, ps, i) + disposition().len() + text(
                ps[i].0.key,
            ).len() <= form_bytes(b, ps).len() && form_bytes(b, ps).subrange(
                name_offset(b, ps, i),
                name_offset(b, ps, i) + disposition().len() + text(ps[i].0.key).len(),
            ) == disposition() + text(ps[i].0.key),
        forall|i: int, j: int|
            #![trigger name_offset(b, ps, i), name_offset(b, ps, j)]
            0 <= i < j < ps.len() ==> name_offset(b, ps, i) < name_offset(b, ps, j),
{
    assert forall|i: int|
        #![trigger ps[i]]
        0 <= i < ps.len() implies name_offset(b, ps, i) + disposition().len() + text(
            ps[i].0.key,
        ).len() <= form_bytes(b, ps).len() && form_bytes(b, ps).subrange(
            name_offset(b, ps, i),
            name_offset(b, ps, i) + disposition().len() + text(ps[i].0.key).len(),
        ) == disposition() + text(ps[i].0.key) by {
        lemma_name_at(b, ps, i);
    }
    assert forall|i: int, j: int|
        #![trigger name_offset(b, ps, i), name_offset(b, ps, j)]
        0 <= i < j < ps.len() implies name_offset(b, ps, i) < name_offset(b, ps, j) by {
        lemma_name_order(b, ps, i, j);
    }
}

/// Appends `s` to `out`.
pub fn append_bytes(out: &mut Vec<u8>, s: &[u8])
    ensures
        final(out)@ == old(out)@ + s@,
{
    let mut i: usize = 0;
    while i < s.len()
        invariant
            i <= s@.len(),
            out@ == old(out)@ + s@.take(i as int),
        decreases s@.len() - i,
    {
        out.push(s[i]);
        i = i + 1;
        assert(s@.take(i as int) =~= s@.take(i - 1) .push(s@[i - 1]));
    }
    assert(s@.take(i as int) =~= s@);
}

/// Appends the UTF-8 bytes of `s` to `out`.
pub fn append_text(out: &mut Vec<u8>, s: &str)
    ensures
        final(out)@ == old(out)@ + text(s@),
{
    append_bytes(out, s.as_bytes());
}

/// Appends a carriage return and line feed to `out`.
pub fn append_crlf(out: &mut Vec<u8>)
    ensures
        final(out)@ == old(out)@ + crlf(),
{
    out.push(13u8);
    out.push(10u8);
    assert(out@ =~= old(out)@ + crlf());
}

/// Appends two dashes to `out`.
pub fn append_dashes(out: &mut Vec<u8>)
    ensures
        final(out)@ == old(out)@ + dashes(),
{
    out.push(45u8);
    out.push(45u8);
    assert(out@ =~= old(out)@ + dashes());
}

/// Renders the header block of a part.
pub fn render_head(
    boundary: &str,
    key: &String,
    filename: &Option<String>,
    mime: &Option<String>,
    headers: &Vec<(String, String)>,
) -> (r: Vec<u8>)
    ensures
        r@ == head_bytes(boundary@, head_view(*key, *filename, *mime, headers@)),
{
    let ghost h = head_view(*key, *filename, *mime, headers@);
    let mut out: Vec<u8> = Vec::new();
    append_dashes(&mut out);
    append_text(&mut out, boundary);
    append_crlf(&mut out);
    append_bytes(&mut out, "content-disposition: form-data; name=".as_bytes());
    append_text(&mut out, key.as_str());
    assert(out@ =~= delimiter_line(boundary@) + named(h.key));
    let ghost upto_key = out@;
    match filename {
        Some(f) => {
            append_bytes(&mut out, "; filename=\"".as_bytes());
            append_text(&mut out, f.as_str());
            append_bytes(&mut out, "\"".as_bytes());
        },
        None => {},
    }
    assert(out@ =~= upto_key + filename_bytes(h.filename));
    let ghost upto_name = out@;
    match mime {
        Some(m) => {
            append_crlf(&mut out);
            append_bytes(&mut out, "content-type: ".as_bytes());
            append_text(&mut out, m.as_str());
        },
        None => {},
    }
    assert(out@ =~= upto_name + mime_bytes(h.mime));
    let ghost upto_mime = out@;
    let mut i: usize = 0;
    while i < headers.len()
        invariant
            i <= headers@.len(),
            h.headers == header_views(headers@),
            out@ == upto_mime + header_lines(h.headers.take(i as int)),
        decreases headers@.len() - i,
    {
        let pair = &headers[i];
        append_crlf(&mut out);
        append_text(&mut out, pair.0.as_str());
        append_bytes(&mut out, ": ".as_bytes());
        append_text(&mut out, pair.1.as_str());
        proof {
            let hs = h.headers;
            assert(hs.take(i + 1).drop_last() =~= hs.take(i as int));
            assert(hs.take(i + 1).last() == hs[i as int]);
            assert(hs[i as int] == (headers@[i as int].0@, headers@[i as int].1@));
        }
        i = i + 1;
    }
    assert(h.headers.take(i as int) =~= h.headers);
    append_crlf(&mut out);
    append_crlf(&mut out);
    assert(out@ =~= upto_key + head_rest(h));
    out
}

/// Renders the closing delimiter.
pub fn render_closing(boundary: &str) -> (r: Vec<u8>)
    ensures
        r@ == closing(boundary@),
{
    let mut out: Vec<u8> = Vec::new();
    append_dashes(&mut out);
    append_text(&mut out, boundary);
    append_dashes(&mut out);
    assert(out@ =~= closing(boundary@));
    out
}

} // verus!
