//! A minimal XML codec for RRDP documents: one root element whose children are
//! leaf elements holding attributes and, optionally, text.
//!
//! The writer emits a canonical form. The reader accepts exactly that form, so
//! that reading is the inverse of writing.
use vstd::prelude::*;
use crate::text::{append_bytes, starts};

verus! {

//------------ Model ---------------------------------------------------------

pub type AttrsV = Seq<(Seq<u8>, Seq<u8>)>;

pub struct ElemV {
    pub name: Seq<u8>,
    pub attrs: AttrsV,
    pub text: Seq<u8>,
}

pub struct DocV {
    pub name: Seq<u8>,
    pub attrs: AttrsV,
    pub children: Seq<ElemV>,
}

/// Bytes that may appear in a tag or attribute name.
pub open spec fn is_name_byte(c: u8) -> bool {
    (97 <= c && c <= 122) || (65 <= c && c <= 90) || (48 <= c && c <= 57) || c == 95 || c == 45
        || c == 46 || c == 58
}

pub open spec fn wf_name(n: Seq<u8>) -> bool {
    n.len() > 0 && forall|i: int| 0 <= i < n.len() ==> is_name_byte(#[trigger] n[i])
}

pub open spec fn wf_attrs(a: AttrsV) -> bool {
    forall|i: int| 0 <= i < a.len() ==> wf_name(#[trigger] a[i].0)
}

pub open spec fn wf_elem(e: ElemV) -> bool {
    wf_name(e.name) && wf_attrs(e.attrs)
}

pub open spec fn wf_doc(d: DocV) -> bool {
    &&& wf_name(d.name)
    &&& wf_attrs(d.attrs)
    &&& forall|i: int| 0 <= i < d.children.len() ==> wf_elem(#[trigger] d.children[i])
}

//------------ Serialisation -------------------------------------------------

pub open spec fn amp_entity() -> Seq<u8> {
    seq![38u8, 97, 109, 112, 59]
}

pub open spec fn lt_entity() -> Seq<u8> {
    seq![38u8, 108, 116, 59]
}

pub open spec fn gt_entity() -> Seq<u8> {
    seq![38u8, 103, 116, 59]
}

pub open spec fn quot_entity() -> Seq<u8> {
    seq![38u8, 113, 117, 111, 116, 59]
}

pub open spec fn apos_entity() -> Seq<u8> {
    seq![38u8, 97, 112, 111, 115, 59]
}

/// The escaped form of one byte; quotes are escaped in attribute values only.
pub open spec fn esc_byte(c: u8, attr: bool) -> Seq<u8> {
    if c == 38 {
        amp_entity()
    } else if c == 60 {
        lt_entity()
    } else if c == 62 {
        gt_entity()
    } else if attr && c == 34 {
        quot_entity()
    } else if attr && c == 39 {
        apos_entity()
    } else {
        seq![c]
    }
}

/// The escaped form of `v`: text content when `attr` is false, an attribute value when true.
pub open spec fn esc(v: Seq<u8>, attr: bool) -> Seq<u8>
    decreases v.len(),
{
    if v.len() == 0 {
        Seq::empty()
    } else {
        esc_byte(v[0], attr) + esc(v.skip(1), attr)
    }
}

pub open spec fn ser_attr(a: (Seq<u8>, Seq<u8>)) -> Seq<u8> {
    seq![32u8] + a.0 + seq![61u8, 34u8] + esc(a.1, true) + seq![34u8]
}

pub open spec fn ser_attrs(a: AttrsV) -> Seq<u8>
    decreases a.len(),
{
    if a.len() == 0 {
        Seq::empty()
    } else {
        ser_attrs(a.drop_last()) + ser_attr(a.last())
    }
}

/// `<name a="v" ...`, the start of a tag before its end.
pub open spec fn ser_open(name: Seq<u8>, attrs: AttrsV) -> Seq<u8> {
    seq![60u8] + name + ser_attrs(attrs)
}

/// `</name>`
pub open spec fn ser_close(name: Seq<u8>) -> Seq<u8> {
    seq![60u8, 47u8] + name + seq![62u8]
}

/// `/>`
pub open spec fn empty_end() -> Seq<u8> {
    seq![47u8, 62u8]
}

pub open spec fn ser_elem(e: ElemV) -> Seq<u8> {
    if e.text.len() == 0 {
        ser_open(e.name, e.attrs) + empty_end()
    } else {
        ser_open(e.name, e.attrs) + seq![62u8] + esc(e.text, false) + ser_close(e.name)
    }
}

pub open spec fn ser_elems(es: Seq<ElemV>) -> Seq<u8>
    decreases es.len(),
{
    if es.len() == 0 {
        Seq::empty()
    } else {
        ser_elems(es.drop_last()) + ser_elem(es.last())
    }
}

/// `<?xml version="1.0" encoding="UTF-8"?>` and a line break.
pub open spec fn declaration() -> Seq<u8> {
    seq![
        60u8, 63, 120, 109, 108, 32, 118, 101, 114, 115, 105, 111, 110, 61, 34, 49, 46, 48, 34, 32,
        101, 110, 99, 111, 100, 105, 110, 103, 61, 34, 85, 84, 70, 45, 56, 34, 63, 62, 10
    ]
}

/// The bytes of a document: the declaration, then the root element.
pub open spec fn ser_doc(d: DocV) -> Seq<u8> {
    if d.children.len() == 0 {
        declaration() + ser_open(d.name, d.attrs) + empty_end()
    } else {
        declaration() + ser_open(d.name, d.attrs) + seq![62u8] + ser_elems(d.children) + ser_close(
            d.name,
        )
    }
}

//------------ Values --------------------------------------------------------

pub struct Attribute {
    pub name: Vec<u8>,
    pub value: Vec<u8>,
}

pub struct Element {
    pub name: Vec<u8>,
    pub attrs: Vec<Attribute>,
    pub text: Vec<u8>,
}

pub struct Document {
    pub name: Vec<u8>,
    pub attrs: Vec<Attribute>,
    pub children: Vec<Element>,
}

pub open spec fn attrs_view(a: Seq<Attribute>) -> AttrsV {
    a.map_values(|x: Attribute| (x.name@, x.value@))
}

impl View for Element {
    type V = ElemV;

    open spec fn view(&self) -> ElemV {
        ElemV { name: self.name@, attrs: attrs_view(self.attrs@), text: self.text@ }
    }
}

pub open spec fn elems_view(es: Seq<Element>) -> Seq<ElemV> {
    es.map_values(|e: Element| e@)
}

impl View for Document {
    type V = DocV;

    open spec fn view(&self) -> DocV {
        DocV {
            name: self.name@,
            attrs: attrs_view(self.attrs@),
            children: elems_view(self.children@),
        }
    }
}

//------------ Writer --------------------------------------------------------

pub proof fn lemma_esc_concat(a: Seq<u8>, b: Seq<u8>, attr: bool)
    ensures
        esc(a + b, attr) == esc(a, attr) + esc(b, attr),
    decreases a.len(),
{
    if a.len() == 0 {
        assert(a + b =~= b);
    } else {
        assert((a + b).skip(1) =~= a.skip(1) + b);
        lemma_esc_concat(a.skip(1), b, attr);
        assert(esc(a + b, attr) =~= esc(a, attr) + esc(b, attr));
    }
}

fn push_seq(out: &mut Vec<u8>, b: &[u8])
    ensures
        final(out)@ == old(out)@ + b@,
{
    append_bytes(out, b);
}

/// Appends the escaped form of `v`.
fn put_escaped(out: &mut Vec<u8>, v: &[u8], attr: bool)
    ensures
        final(out)@ == old(out)@ + esc(v@, attr),
{
    let mut i: usize = 0;
    while i < v.len()
        invariant
            i <= v@.len(),
            out@ == old(out)@ + esc(v@.take(i as int), attr),
        decreases v@.len() - i,
    {
        let c = v[i];
        proof {
            assert(v@.take(i + 1) =~= v@.take(i as int) + seq![c]);
            lemma_esc_concat(v@.take(i as int), seq![c], attr);
            assert(seq![c].skip(1) =~= Seq::<u8>::empty());
            assert(esc(Seq::<u8>::empty(), attr) == Seq::<u8>::empty());
            assert(seq![c][0] == c);
            assert(esc(seq![c], attr) =~= esc_byte(c, attr));
        }
        let ghost before = out@;
        if c == 38 {
            let e = [38u8, 97, 109, 112, 59];
            push_seq(out, &e);
            assert(e@ =~= amp_entity());
        } else if c == 60 {
            let e = [38u8, 108, 116, 59];
            push_seq(out, &e);
            assert(e@ =~= lt_entity());
        } else if c == 62 {
            let e = [38u8, 103, 116, 59];
            push_seq(out, &e);
            assert(e@ =~= gt_entity());
        } else if attr && c == 34 {
            let e = [38u8, 113, 117, 111, 116, 59];
            push_seq(out, &e);
            assert(e@ =~= quot_entity());
        } else if attr && c == 39 {
            let e = [38u8, 97, 112, 111, 115, 59];
            push_seq(out, &e);
            assert(e@ =~= apos_entity());
        } else {
            out.push(c);
        }
        assert(out@ =~= before + esc_byte(c, attr));
        assert(out@ =~= old(out)@ + esc(v@.take(i + 1), attr));
        i = i + 1;
    }
    assert(v@.take(i as int) =~= v@);
}

/// Appends `<name a="v" ...`.
fn put_open(out: &mut Vec<u8>, name: &[u8], attrs: &Vec<Attribute>)
    ensures
        final(out)@ == old(out)@ + ser_open(name@, attrs_view(attrs@)),
{
    out.push(60u8);
    append_bytes(out, name);
    let mut i: usize = 0;
    while i < attrs.len()
        invariant
            i <= attrs@.len(),
            out@ == old(out)@ + seq![60u8] + name@ + ser_attrs(attrs_view(attrs@).take(i as int)),
        decreases attrs@.len() - i,
    {
        let a = &attrs[i];
        out.push(32u8);
        append_bytes(out, a.name.as_slice());
        out.push(61u8);
        out.push(34u8);
        put_escaped(out, a.value.as_slice(), true);
        out.push(34u8);
        proof {
            let av = attrs_view(attrs@);
            assert(av.take(i + 1).drop_last() =~= av.take(i as int));
            assert(av.take(i + 1).last() == (a.name@, a.value@));
        }
        assert(out@ =~= old(out)@ + seq![60u8] + name@ + ser_attrs(
            attrs_view(attrs@).take(i + 1),
        ));
        i = i + 1;
    }
    assert(attrs_view(attrs@).take(i as int) =~= attrs_view(attrs@));
}

fn put_close(out: &mut Vec<u8>, name: &[u8])
    ensures
        final(out)@ == old(out)@ + ser_close(name@),
{
    out.push(60u8);
    out.push(47u8);
    append_bytes(out, name);
    out.push(62u8);
    assert(out@ =~= old(out)@ + ser_close(name@));
}

fn put_element(out: &mut Vec<u8>, e: &Element)
    ensures
        final(out)@ == old(out)@ + ser_elem(e@),
{
    put_open(out, e.name.as_slice(), &e.attrs);
    if e.text.len() == 0 {
        out.push(47u8);
        out.push(62u8);
    } else {
        out.push(62u8);
        put_escaped(out, e.text.as_slice(), false);
        put_close(out, e.name.as_slice());
    }
    assert(out@ =~= old(out)@ + ser_elem(e@));
}

/// The bytes of `d`: an XML declaration, then its root element.
pub fn encode(d: &Document) -> (r: Vec<u8>)
    ensures
        r@ == ser_doc(d@),
{
    let mut out: Vec<u8> = vec![
        60u8, 63, 120, 109, 108, 32, 118, 101, 114, 115, 105, 111, 110, 61, 34, 49, 46, 48, 34, 32,
        101, 110, 99, 111, 100, 105, 110, 103, 61, 34, 85, 84, 70, 45, 56, 34, 63, 62, 10
    ];
    assert(out@ =~= declaration());
    put_open(&mut out, d.name.as_slice(), &d.attrs);
    if d.children.len() == 0 {
        out.push(47u8);
        out.push(62u8);
    } else {
        out.push(62u8);
        let ghost start = out@;
        let mut i: usize = 0;
        while i < d.children.len()
            invariant
                i <= d.children@.len(),
                out@ == start + ser_elems(elems_view(d.children@).take(i as int)),
            decreases d.children@.len() - i,
        {
            put_element(&mut out, &d.children[i]);
            proof {
                let ev = elems_view(d.children@);
                assert(ev.take(i + 1).drop_last() =~= ev.take(i as int));
            }
            assert(out@ =~= start + ser_elems(elems_view(d.children@).take(i + 1)));
            i = i + 1;
        }
        assert(elems_view(d.children@).take(i as int) =~= elems_view(d.children@));
        put_close(&mut out, d.name.as_slice());
    }
    assert(out@ =~= ser_doc(d@));
    out
}

//------------ Reader primitives ---------------------------------------------

/// `b` holds `s` from position `pos` on.
pub open spec fn at(b: Seq<u8>, pos: int, s: Seq<u8>) -> bool {
    0 <= pos && pos + s.len() <= b.len() && b.subrange(pos, pos + s.len()) == s
}

pub open spec fn prepend(c: u8, o: Option<Seq<u8>>) -> Option<Seq<u8>> {
    match o {
        Some(r) => Some(seq![c] + r),
        None => None,
    }
}

pub open spec fn prepend_all(p: Seq<u8>, o: Option<Seq<u8>>) -> Option<Seq<u8>> {
    match o {
        Some(r) => Some(p + r),
        None => None,
    }
}

/// What escaped text `s` stands for; `None` where `s` is not the escaped form of anything.
pub open spec fn unesc(s: Seq<u8>, attr: bool) -> Option<Seq<u8>>
    decreases s.len(),
{
    if s.len() == 0 {
        Some(Seq::empty())
    } else if s[0] == 38 {
        if starts(s, amp_entity()) {
            prepend(38, unesc(s.skip(5), attr))
        } else if starts(s, lt_entity()) {
            prepend(60, unesc(s.skip(4), attr))
        } else if starts(s, gt_entity()) {
            prepend(62, unesc(s.skip(4), attr))
        } else if attr && starts(s, quot_entity()) {
            prepend(34, unesc(s.skip(6), attr))
        } else if attr && starts(s, apos_entity()) {
            prepend(39, unesc(s.skip(6), attr))
        } else {
            None
        }
    } else if s[0] == 60 || s[0] == 62 || (attr && (s[0] == 34 || s[0] == 39)) {
        None
    } else {
        prepend(s[0], unesc(s.skip(1), attr))
    }
}

pub proof fn lemma_unesc_esc(v: Seq<u8>, attr: bool)
    ensures
        unesc(esc(v, attr), attr) == Some(v),
    decreases v.len(),
{
    if v.len() > 0 {
        let e = esc(v, attr);
        let c = v[0];
        let eb = esc_byte(c, attr);
        lemma_unesc_esc(v.skip(1), attr);
        assert(e == eb + esc(v.skip(1), attr));
        assert(e.take(eb.len() as int) =~= eb);
        assert(e.skip(eb.len() as int) =~= esc(v.skip(1), attr));
        if c == 38 {
            assert(starts(e, amp_entity()));
        } else if c == 60 {
            assert(e[1] == 108);
            if starts(e, amp_entity()) {
                assert(e.take(5)[1] == e[1]);
            }
            assert(starts(e, lt_entity()));
        } else if c == 62 {
            assert(e[1] == 103);
            if starts(e, amp_entity()) {
                assert(e.take(5)[1] == e[1]);
            }
            if starts(e, lt_entity()) {
                assert(e.take(4)[1] == e[1]);
            }
            assert(starts(e, gt_entity()));
        } else if attr && c == 34 {
            assert(e[1] == 113);
            if starts(e, amp_entity()) {
                assert(e.take(5)[1] == e[1]);
            }
            if starts(e, lt_entity()) {
                assert(e.take(4)[1] == e[1]);
            }
            if starts(e, gt_entity()) {
                assert(e.take(4)[1] == e[1]);
            }
            assert(starts(e, quot_entity()));
        } else if attr && c == 39 {
            assert(e[1] == 97 && e[2] == 112);
            if starts(e, amp_entity()) {
                assert(e.take(5)[2] == e[2]);
            }
            if starts(e, lt_entity()) {
                assert(e.take(4)[1] == e[1]);
            }
            if starts(e, gt_entity()) {
                assert(e.take(4)[1] == e[1]);
            }
            if starts(e, quot_entity()) {
                assert(e.take(6)[1] == e[1]);
            }
            assert(starts(e, apos_entity()));
        } else {
            assert(e[0] == c);
        }
        assert(v =~= seq![c] + v.skip(1));
    }
}

pub proof fn lemma_esc_unesc(s: Seq<u8>, attr: bool)
    requires
        unesc(s, attr) is Some,
    ensures
        esc(unesc(s, attr)->Some_0, attr) == s,
    decreases s.len(),
{
    if s.len() > 0 {
        let v = unesc(s, attr)->Some_0;
        let c = v[0];
        let n: int = if s[0] != 38 {
            1
        } else if starts(s, amp_entity()) {
            5
        } else if starts(s, lt_entity()) || starts(s, gt_entity()) {
            4
        } else {
            6
        };
        lemma_esc_unesc(s.skip(n), attr);
        assert(v.skip(1) =~= unesc(s.skip(n), attr)->Some_0);
        assert(s.take(n) =~= esc_byte(c, attr));
        assert(s =~= s.take(n) + s.skip(n));
    }
}

/// Escaped text holds no `<`, and an escaped attribute value no `"`.
pub proof fn lemma_esc_stops(v: Seq<u8>, attr: bool)
    ensures
        forall|i: int| 0 <= i < esc(v, attr).len() ==> #[trigger] esc(v, attr)[i] != 60,
        attr ==> forall|i: int| 0 <= i < esc(v, attr).len() ==> #[trigger] esc(v, attr)[i] != 34,
    decreases v.len(),
{
    if v.len() > 0 {
        lemma_esc_stops(v.skip(1), attr);
        let eb = esc_byte(v[0], attr);
        assert(forall|i: int| 0 <= i < eb.len() ==> eb[i] != 60);
        assert(attr ==> forall|i: int| 0 <= i < eb.len() ==> eb[i] != 34);
        assert forall|i: int| 0 <= i < esc(v, attr).len() implies esc(v, attr)[i] != 60 && (attr
            ==> esc(v, attr)[i] != 34) by {
            if i >= eb.len() {
                assert(esc(v, attr)[i] == esc(v.skip(1), attr)[i - eb.len()]);
            }
        }
    }
}

/// Whether `b` holds `s` from `pos` on.
fn has_at(b: &[u8], pos: usize, s: &[u8]) -> (r: bool)
    ensures
        r == at(b@, pos as int, s@),
{
    if pos > b.len() || s.len() > b.len() - pos {
        return false;
    }
    let mut i: usize = 0;
    while i < s.len()
        invariant
            pos + s@.len() <= b@.len(),
            b@.len() == b.len(),
            i <= s@.len(),
            forall|k: int| 0 <= k < i ==> b@[pos + k] == s@[k],
        decreases s@.len() - i,
    {
        if b[pos + i] != s[i] {
            assert(b@.subrange(pos as int, pos + s@.len())[i as int] != s@[i as int]);
            return false;
        }
        i = i + 1;
    }
    assert(b@.subrange(pos as int, pos + s@.len()) =~= s@);
    true
}

/// A copy of `b[start..end]`.
fn copy_range(b: &[u8], start: usize, end: usize) -> (r: Vec<u8>)
    requires
        start <= end <= b@.len(),
    ensures
        r@ == b@.subrange(start as int, end as int),
{
    let mut r: Vec<u8> = Vec::new();
    let mut i: usize = start;
    while i < end
        invariant
            start <= i <= end <= b@.len(),
            r@ == b@.subrange(start as int, i as int),
        decreases end - i,
    {
        r.push(b[i]);
        assert(b@.subrange(start as int, i + 1) =~= b@.subrange(start as int, i as int).push(
            b@[i as int],
        ));
        i = i + 1;
    }
    r
}

/// The end of the longest run of name bytes from `pos`.
fn scan_name(b: &[u8], pos: usize) -> (r: usize)
    requires
        pos <= b@.len(),
    ensures
        pos <= r <= b@.len(),
        forall|k: int| pos <= k < r ==> is_name_byte(#[trigger] b@[k]),
        r == b@.len() || !is_name_byte(b@[r as int]),
{
    let mut i: usize = pos;
    while i < b.len()
        invariant
            pos <= i <= b@.len(),
            forall|k: int| pos <= k < i ==> is_name_byte(#[trigger] b@[k]),
        decreases b@.len() - i,
    {
        let c = b[i];
        if !((97 <= c && c <= 122) || (65 <= c && c <= 90) || (48 <= c && c <= 57) || c == 95 || c
            == 45 || c == 46 || c == 58) {
            return i;
        }
        i = i + 1;
    }
    i
}

/// The first position from `pos` on that holds `c`.
fn find_byte(b: &[u8], pos: usize, c: u8) -> (r: Option<usize>)
    requires
        pos <= b@.len(),
    ensures
        r matches Some(q) ==> pos <= q < b@.len() && b@[q as int] == c,
        forall|k: int| pos <= k < b@.len() && (r matches Some(q) ==> k < q) ==> #[trigger] b@[k] != c,
{
    let mut i: usize = pos;
    while i < b.len()
        invariant
            pos <= i <= b@.len(),
            forall|k: int| pos <= k < i ==> #[trigger] b@[k] != c,
        decreases b@.len() - i,
    {
        if b[i] == c {
            return Some(i);
        }
        i = i + 1;
    }
    None
}

/// Reads the escaped text `b[start..end]`.
fn unescape(b: &[u8], start: usize, end: usize, attr: bool) -> (r: Option<Vec<u8>>)
    requires
        start <= end <= b@.len(),
    ensures
        r matches Some(v) ==> unesc(b@.subrange(start as int, end as int), attr) == Some(v@),
        r is None ==> unesc(b@.subrange(start as int, end as int), attr) is None,
{
    let ghost seg = b@.subrange(start as int, end as int);
    let mut out: Vec<u8> = Vec::new();
    let mut i: usize = start;
    let amp = [38u8, 97, 109, 112, 59];
    let lt = [38u8, 108, 116, 59];
    let gt = [38u8, 103, 116, 59];
    let quot = [38u8, 113, 117, 111, 116, 59];
    let apos = [38u8, 97, 112, 111, 115, 59];
    assert(amp@ =~= amp_entity());
    assert(lt@ =~= lt_entity());
    assert(gt@ =~= gt_entity());
    assert(quot@ =~= quot_entity());
    assert(apos@ =~= apos_entity());
    assert(seg =~= b@.subrange(i as int, end as int));
    while i < end
        invariant
            start <= i <= end <= b@.len(),
            amp@ == amp_entity(),
            lt@ == lt_entity(),
            gt@ == gt_entity(),
            quot@ == quot_entity(),
            apos@ == apos_entity(),
            seg == b@.subrange(start as int, end as int),
            unesc(seg, attr) == prepend_all(out@, unesc(b@.subrange(i as int, end as int), attr)),
        decreases end - i,
    {
        let ghost s = b@.subrange(i as int, end as int);
        let c = b[i];
        assert(s[0] == c);
        let ghost old_out = out@;
        let n: usize;
        if c == 38 {
            proof {
                assert forall|p: Seq<u8>| p.len() <= end - i implies (starts(s, p) <==> at(
                    b@,
                    i as int,
                    p,
                )) by {
                    assert(s.take(p.len() as int) =~= b@.subrange(i as int, i + p.len()));
                }
            }
            if end - i >= 5 && has_at(b, i, &amp) {
                out.push(38u8);
                n = 5;
            } else if end - i >= 4 && has_at(b, i, &lt) {
                out.push(60u8);
                n = 4;
            } else if end - i >= 4 && has_at(b, i, &gt) {
                out.push(62u8);
                n = 4;
            } else if attr && end - i >= 6 && has_at(b, i, &quot) {
                out.push(34u8);
                n = 6;
            } else if attr && end - i >= 6 && has_at(b, i, &apos) {
                out.push(39u8);
                n = 6;
            } else {
                return None;
            }
        } else if c == 60 || c == 62 || (attr && (c == 34 || c == 39)) {
            return None;
        } else {
            out.push(c);
            n = 1;
        }
        proof {
            assert(s.skip(n as int) =~= b@.subrange(i + n, end as int));
            assert(out@ =~= old_out + seq![out@.last()]);
            assert(old_out + (seq![out@.last()] + Seq::<u8>::empty()) =~= out@);
            match unesc(b@.subrange(i + n, end as int), attr) {
                Some(r) => {
                    assert(old_out + (seq![out@.last()] + r) =~= out@ + r);
                },
                None => {},
            }
        }
        i = i + n;
    }
    assert(b@.subrange(i as int, end as int) =~= Seq::<u8>::empty());
    assert(out@ + Seq::<u8>::empty() =~= out@);
    Some(out)
}

//------------ Reader: start tags --------------------------------------------

pub proof fn lemma_at_split(b: Seq<u8>, pos: int, s: Seq<u8>, t: Seq<u8>)
    requires
        at(b, pos, s + t),
    ensures
        at(b, pos, s),
        at(b, pos + s.len(), t),
{
    let w = b.subrange(pos, pos + (s + t).len());
    assert(w == s + t);
    assert(b.subrange(pos, pos + s.len()) =~= w.take(s.len() as int));
    assert(w.take(s.len() as int) =~= s);
    assert(b.subrange(pos + s.len(), pos + s.len() + t.len()) =~= w.skip(s.len() as int));
    assert(w.skip(s.len() as int) =~= t);
}

pub proof fn lemma_ser_attrs_prefix(a: AttrsV, k: int)
    requires
        0 <= k <= a.len(),
    ensures
        ser_attrs(a.take(k)).len() <= ser_attrs(a).len(),
        ser_attrs(a) == ser_attrs(a.take(k)) + ser_attrs(a).skip(ser_attrs(a.take(k)).len() as int),
    decreases a.len(),
{
    if k == a.len() {
        assert(a.take(k) =~= a);
    } else {
        assert(a.drop_last().take(k) =~= a.take(k));
        lemma_ser_attrs_prefix(a.drop_last(), k);
    }
    let s = ser_attrs(a);
    let t = ser_attrs(a.take(k));
    assert(s =~= t + s.skip(t.len() as int));
}

pub proof fn lemma_ser_attrs_step(a: AttrsV, k: int)
    requires
        0 <= k < a.len(),
    ensures
        ser_attrs(a.take(k + 1)) == ser_attrs(a.take(k)) + ser_attr(a[k]),
{
    assert(a.take(k + 1).drop_last() =~= a.take(k));
}

/// `b` holds the attribute `x`, with its leading space, at `p`.
pub open spec fn attr_at(b: Seq<u8>, p: int, x: (Seq<u8>, Seq<u8>)) -> bool {
    wf_name(x.0) && at(b, p, ser_attr(x))
}

pub proof fn lemma_attr_facts(b: Seq<u8>, p: int, x: (Seq<u8>, Seq<u8>))
    requires
        attr_at(b, p, x),
    ensures
        b[p] == 32,
        forall|k: int| p + 1 <= k < p + 1 + x.0.len() ==> is_name_byte(#[trigger] b[k]),
        b[p + 1 + x.0.len()] == 61,
        b[p + 2 + x.0.len()] == 34,
        b[p + 3 + x.0.len() + esc(x.1, true).len()] == 34,
        forall|k: int|
            p + 3 + x.0.len() <= k < p + 3 + x.0.len() + esc(x.1, true).len() ==> #[trigger] b[k]
                != 34,
        b.subrange(p + 1, p + 1 + x.0.len()) == x.0,
        unesc(b.subrange(p + 3 + x.0.len(), p + 3 + x.0.len() + esc(x.1, true).len()), true)
            == Some(x.1),
        p + 4 + x.0.len() + esc(x.1, true).len() == p + ser_attr(x).len(),
{
    let m = x.0.len() as int;
    let e = esc(x.1, true);
    let s = ser_attr(x);
    let w = b.subrange(p, p + s.len());
    assert(w == s);
    assert(s.len() == 4 + m + e.len());
    assert forall|k: int| p + 1 <= k < p + 1 + m implies is_name_byte(#[trigger] b[k]) by {
        assert(b[k] == w[k - p]);
        assert(s[k - p] == x.0[k - p - 1]);
    }
    assert(b[p] == w[0]);
    assert(b[p + 1 + m] == w[1 + m]);
    assert(b[p + 2 + m] == w[2 + m]);
    assert(b[p + 3 + m + e.len()] == w[3 + m + e.len() as int]);
    lemma_esc_stops(x.1, true);
    assert forall|k: int| p + 3 + m <= k < p + 3 + m + e.len() implies #[trigger] b[k] != 34 by {
        assert(b[k] == w[k - p]);
        assert(s[k - p] == e[k - p - 3 - m]);
    }
    assert(b.subrange(p + 1, p + 1 + m) =~= w.subrange(1, 1 + m));
    assert(w.subrange(1, 1 + m) =~= x.0);
    assert(b.subrange(p + 3 + m, p + 3 + m + e.len()) =~= w.subrange(3 + m, 3 + m + e.len()));
    assert(w.subrange(3 + m, 3 + m + e.len()) =~= e);
    lemma_unesc_esc(x.1, true);
}

/// `b` holds the start tag `<n a`, followed by `/` or `>`, at `pos`.
pub open spec fn open_at(b: Seq<u8>, pos: int, n: Seq<u8>, a: AttrsV) -> bool {
    &&& wf_name(n)
    &&& wf_attrs(a)
    &&& at(b, pos, ser_open(n, a))
    &&& pos + ser_open(n, a).len() < b.len()
    &&& (b[pos + ser_open(n, a).len()] == 47 || b[pos + ser_open(n, a).len()] == 62)
}

proof fn lemma_open_attr(b: Seq<u8>, pos: int, n: Seq<u8>, a: AttrsV, k: int)
    requires
        open_at(b, pos, n, a),
        0 <= k < a.len(),
    ensures
        attr_at(b, pos + ser_open(n, a.take(k)).len(), a[k]),
        ser_open(n, a.take(k + 1)).len() == ser_open(n, a.take(k)).len() + ser_attr(a[k]).len(),
{
    lemma_ser_attrs_prefix(a, k + 1);
    lemma_ser_attrs_step(a, k);
    let pre = seq![60u8] + n;
    let s1 = ser_attrs(a.take(k));
    let s2 = ser_attr(a[k]);
    let rest = ser_attrs(a).skip(ser_attrs(a.take(k + 1)).len() as int);
    assert(ser_open(n, a) =~= (pre + s1) + (s2 + rest));
    lemma_at_split(b, pos, pre + s1, s2 + rest);
    lemma_at_split(b, pos + (pre + s1).len(), s2, rest);
    assert(ser_open(n, a.take(k)) =~= pre + s1);
}

proof fn lemma_open_name(b: Seq<u8>, pos: int, n: Seq<u8>, a: AttrsV)
    requires
        open_at(b, pos, n, a),
    ensures
        b[pos] == 60,
        forall|k: int| pos + 1 <= k < pos + 1 + n.len() ==> is_name_byte(#[trigger] b[k]),
        pos + 1 + n.len() < b.len(),
        !is_name_byte(b[pos + 1 + n.len()]),
        b.subrange(pos + 1, pos + 1 + n.len()) == n,
        a.len() == 0 ==> pos + 1 + n.len() == pos + ser_open(n, a).len(),
{
    let s = ser_open(n, a);
    let w = b.subrange(pos, pos + s.len());
    assert(b[pos] == w[0]);
    assert forall|k: int| pos + 1 <= k < pos + 1 + n.len() implies is_name_byte(#[trigger] b[k]) by {
        assert(b[k] == w[k - pos]);
        assert(s[k - pos] == n[k - pos - 1]);
    }
    assert(b.subrange(pos + 1, pos + 1 + n.len()) =~= w.subrange(1, 1 + n.len() as int));
    assert(w.subrange(1, 1 + n.len() as int) =~= n);
    if a.len() > 0 {
        lemma_open_attr(b, pos, n, a, 0);
        assert(a.take(0) =~= Seq::<(Seq<u8>, Seq<u8>)>::empty());
        assert(ser_open(n, a.take(0)) =~= seq![60u8] + n);
        lemma_attr_facts(b, pos + 1 + n.len(), a[0]);
    } else {
        assert(ser_attrs(a) =~= Seq::<u8>::empty());
    }
}

#[verifier::spinoff_prover]
/// Reads a start tag `<name a="v" ...` at `pos`, up to the `/` or `>` that ends it.
fn parse_open(b: &[u8], pos: usize) -> (r: Option<(Vec<u8>, Vec<Attribute>, usize)>)
    requires
        pos <= b@.len(),
    ensures
        r matches Some((n, a, e)) ==> {
            &&& pos <= e <= b@.len()
            &&& wf_name(n@)
            &&& wf_attrs(attrs_view(a@))
            &&& b@.subrange(pos as int, e as int) == ser_open(n@, attrs_view(a@))
        },
        forall|n: Seq<u8>, a: AttrsV| #[trigger]
            open_at(b@, pos as int, n, a) ==> (r matches Some((n2, a2, e)) && n2@ == n
                && attrs_view(a2@) == a && e == pos + ser_open(n, a).len()),
{
    if pos >= b.len() || b[pos] != 60 {
        proof {
            assert forall|n: Seq<u8>, a: AttrsV| #[trigger] open_at(b@, pos as int, n, a) implies false by {
                lemma_open_name(b@, pos as int, n, a);
            }
        }
        return None;
    }
    let ne = scan_name(b, pos + 1);
    proof {
        assert forall|n: Seq<u8>, a: AttrsV| #[trigger] open_at(b@, pos as int, n, a) implies ne
            == pos + 1 + n.len() by {
            lemma_open_name(b@, pos as int, n, a);
            if ne < pos + 1 + n.len() {
                assert(is_name_byte(b@[ne as int]));
            }
            if ne > pos + 1 + n.len() {
                assert(is_name_byte(b@[pos + 1 + n.len()]));
            }
        }
    }
    if ne == pos + 1 {
        return None;
    }
    let name = copy_range(b, pos + 1, ne);
    assert(wf_name(name@)) by {
        assert forall|i: int| 0 <= i < name@.len() implies is_name_byte(#[trigger] name@[i]) by {
            assert(name@[i] == b@[pos + 1 + i]);
        }
    }
    let mut attrs: Vec<Attribute> = Vec::new();
    let mut p: usize = ne;
    proof {
        assert(attrs_view(attrs@) =~= Seq::<(Seq<u8>, Seq<u8>)>::empty());
        assert(ser_attrs(attrs_view(attrs@)) =~= Seq::<u8>::empty());
        assert(b@.subrange(pos as int, p as int) =~= ser_open(name@, attrs_view(attrs@)));
        assert forall|n: Seq<u8>, a: AttrsV| #[trigger] open_at(b@, pos as int, n, a) implies name@
            == n && attrs_view(attrs@) == a.take(0) && p == pos + ser_open(n, a.take(0)).len() by {
            lemma_open_name(b@, pos as int, n, a);
            assert(a.take(0) =~= Seq::<(Seq<u8>, Seq<u8>)>::empty());
            assert(ser_attrs(a.take(0)) =~= Seq::<u8>::empty());
        }
    }
    while p < b.len() && b[p] == 32
        invariant
            pos + 1 < ne <= p <= b@.len(),
            wf_name(name@),
            wf_attrs(attrs_view(attrs@)),
            b@.subrange(pos as int, p as int) == ser_open(name@, attrs_view(attrs@)),
            forall|n: Seq<u8>, a: AttrsV| #[trigger]
                open_at(b@, pos as int, n, a) ==> {
                    &&& name@ == n
                    &&& attrs@.len() <= a.len()
                    &&& attrs_view(attrs@) == a.take(attrs@.len() as int)
                    &&& p == pos + ser_open(n, a.take(attrs@.len() as int)).len()
                },
        decreases b@.len() - p,
    {
        let ghost k = attrs@.len() as int;
        proof {
            assert forall|n: Seq<u8>, a: AttrsV| #[trigger] open_at(b@, pos as int, n, a) implies k
                < a.len() && attr_at(b@, p as int, a[k]) by {
                if k == a.len() {
                    assert(a.take(k) =~= a);
                } else {
                    lemma_open_attr(b@, pos as int, n, a, k);
                }
            }
        }
        let an = scan_name(b, p + 1);
        proof {
            assert forall|n: Seq<u8>, a: AttrsV| #[trigger] open_at(b@, pos as int, n, a) implies an
                == p + 1 + a[k].0.len() by {
                lemma_attr_facts(b@, p as int, a[k]);
                if an < p + 1 + a[k].0.len() {
                    assert(is_name_byte(b@[an as int]));
                }
                if an > p + 1 + a[k].0.len() {
                    assert(is_name_byte(b@[p + 1 + a[k].0.len()]));
                }
            }
        }
        if an == p + 1 || b.len() - an <= 1 || b[an] != 61 || b[an + 1] != 34 {
            proof {
                assert forall|n: Seq<u8>, a: AttrsV| #[trigger] open_at(b@, pos as int, n, a) implies false by {
                    lemma_attr_facts(b@, p as int, a[k]);
                }
            }
            return None;
        }
        let fq = find_byte(b, an + 2, 34);
        let q = match fq {
            Some(q) => q,
            None => {
                proof {
                    assert forall|n: Seq<u8>, a: AttrsV| #[trigger] open_at(b@, pos as int, n, a) implies false by {
                        lemma_attr_facts(b@, p as int, a[k]);
                        assert(b@[an + 2 + esc(a[k].1, true).len()] == 34);
                    }
                }
                return None;
            },
        };
        proof {
            assert forall|n: Seq<u8>, a: AttrsV| #[trigger] open_at(b@, pos as int, n, a) implies q
                == an + 2 + esc(a[k].1, true).len() by {
                lemma_attr_facts(b@, p as int, a[k]);
                if q < an + 2 + esc(a[k].1, true).len() {
                    assert(b@[q as int] != 34);
                }
                if q > an + 2 + esc(a[k].1, true).len() {
                    assert(b@[an + 2 + esc(a[k].1, true).len()] != 34);
                }
            }
        }
        let ov = unescape(b, an + 2, q, true);
        let v = match ov {
            Some(v) => v,
            None => {
                proof {
                    assert forall|n: Seq<u8>, a: AttrsV| #[trigger] open_at(b@, pos as int, n, a) implies false by {
                        lemma_attr_facts(b@, p as int, a[k]);
                    }
                }
                return None;
            },
        };
        let aname = copy_range(b, p + 1, an);
        let ghost old_attrs = attrs@;
        let ghost x = (aname@, v@);
        proof {
            lemma_esc_unesc(b@.subrange(an + 2, q as int), true);
            assert(wf_name(aname@)) by {
                assert forall|i: int| 0 <= i < aname@.len() implies is_name_byte(#[trigger] aname@[i]) by {
                    assert(aname@[i] == b@[p + 1 + i]);
                }
            }
            assert(b@.subrange(p as int, q + 1) =~= ser_attr(x));
        }
        attrs.push(Attribute { name: aname, value: v });
        proof {
            assert(attrs_view(attrs@) =~= attrs_view(old_attrs).push(x));
            assert(attrs_view(attrs@).drop_last() =~= attrs_view(old_attrs));
            assert(b@.subrange(pos as int, q + 1) =~= b@.subrange(pos as int, p as int)
                + b@.subrange(p as int, q + 1));
            assert forall|i: int| 0 <= i < attrs_view(attrs@).len() implies wf_name(
                #[trigger] attrs_view(attrs@)[i].0,
            ) by {
                if i < k {
                    assert(attrs_view(attrs@)[i] == attrs_view(old_attrs)[i]);
                }
            }
            assert forall|n: Seq<u8>, a: AttrsV| #[trigger] open_at(b@, pos as int, n, a) implies {
                &&& attrs@.len() <= a.len()
                &&& attrs_view(attrs@) == a.take(attrs@.len() as int)
                &&& q + 1 == pos + ser_open(n, a.take(attrs@.len() as int)).len()
            } by {
                lemma_attr_facts(b@, p as int, a[k]);
                lemma_open_attr(b@, pos as int, n, a, k);
                assert(b@.subrange(an + 2, q as int) == b@.subrange(
                    p + 3 + a[k].0.len(),
                    p + 3 + a[k].0.len() + esc(a[k].1, true).len(),
                ));
                assert(aname@ =~= a[k].0);
                assert(v@ == a[k].1);
                assert(a.take(k + 1) =~= a.take(k).push(a[k]));
            }
        }
        p = q + 1;
    }
    proof {
        assert forall|n: Seq<u8>, a: AttrsV| #[trigger] open_at(b@, pos as int, n, a) implies attrs@.len()
            == a.len() by {
            if attrs@.len() < a.len() {
                lemma_open_attr(b@, pos as int, n, a, attrs@.len() as int);
                lemma_attr_facts(b@, p as int, a[attrs@.len() as int]);
            }
        }
        assert forall|n: Seq<u8>, a: AttrsV| #[trigger] open_at(b@, pos as int, n, a) implies a.take(
            attrs@.len() as int,
        ) == a by {
            assert(a.take(a.len() as int) =~= a);
        }
    }
    Some((name, attrs, p))
}

//------------ Reader: elements and documents -------------------------------

/// `b` holds the element `x` at `pos`.
pub open spec fn elem_at(b: Seq<u8>, pos: int, x: ElemV) -> bool {
    wf_elem(x) && at(b, pos, ser_elem(x))
}

proof fn lemma_esc_nonempty(v: Seq<u8>, attr: bool)
    ensures
        v.len() > 0 <==> esc(v, attr).len() > 0,
{
    if v.len() > 0 {
        assert(esc_byte(v[0], attr).len() > 0);
    }
}

proof fn lemma_elem_facts(b: Seq<u8>, pos: int, x: ElemV)
    requires
        elem_at(b, pos, x),
    ensures
        open_at(b, pos, x.name, x.attrs),
        ({
            let p = pos + ser_open(x.name, x.attrs).len();
            let e = esc(x.text, false);
            if x.text.len() == 0 {
                &&& b[p] == 47
                &&& b[p + 1] == 62
                &&& ser_elem(x).len() == ser_open(x.name, x.attrs).len() + 2
            } else {
                &&& b[p] == 62
                &&& e.len() > 0
                &&& forall|k: int| p + 1 <= k < p + 1 + e.len() ==> #[trigger] b[k] != 60
                &&& b[p + 1 + e.len()] == 60
                &&& unesc(b.subrange(p + 1, p + 1 + e.len()), false) == Some(x.text)
                &&& at(b, p + 1 + e.len(), ser_close(x.name))
                &&& ser_elem(x).len() == ser_open(x.name, x.attrs).len() + 1 + e.len()
                    + ser_close(x.name).len()
            }
        }),
{
    let o = ser_open(x.name, x.attrs);
    let p = pos + o.len();
    let e = esc(x.text, false);
    lemma_esc_nonempty(x.text, false);
    if x.text.len() == 0 {
        lemma_at_split(b, pos, o, empty_end());
        assert(b[p] == b.subrange(p, p + 2)[0]);
        assert(b[p + 1] == b.subrange(p, p + 2)[1]);
    } else {
        let c = ser_close(x.name);
        assert(ser_elem(x) =~= o + (seq![62u8] + (e + c)));
        lemma_at_split(b, pos, o, seq![62u8] + (e + c));
        lemma_at_split(b, p, seq![62u8], e + c);
        lemma_at_split(b, p + 1, e, c);
        assert(b[p] == b.subrange(p, p + 1)[0]);
        lemma_esc_stops(x.text, false);
        assert forall|k: int| p + 1 <= k < p + 1 + e.len() implies #[trigger] b[k] != 60 by {
            assert(b[k] == b.subrange(p + 1, p + 1 + e.len())[k - p - 1]);
        }
        assert(b[p + 1 + e.len()] == b.subrange(p + 1 + e.len(), p + 1 + e.len() + c.len())[0]);
        lemma_unesc_esc(x.text, false);
    }
}

#[verifier::spinoff_prover]
#[verifier::rlimit(50)]
/// Reads one leaf element at `pos`: `<n a="v"/>` or `<n a="v">text</n>` with non-empty text.
fn parse_elem(b: &[u8], pos: usize) -> (r: Option<(Element, usize)>)
    requires
        pos <= b@.len(),
    ensures
        r matches Some((e, end)) ==> {
            &&& pos <= end <= b@.len()
            &&& wf_elem(e@)
            &&& b@.subrange(pos as int, end as int) == ser_elem(e@)
        },
        forall|x: ElemV| #[trigger]
            elem_at(b@, pos as int, x) ==> (r matches Some((e, end)) && e@ == x && end == pos
                + ser_elem(x).len()),
{
    let (name, attrs, p) = match parse_open(b, pos) {
        Some(t) => t,
        None => {
            proof {
                assert forall|x: ElemV| #[trigger] elem_at(b@, pos as int, x) implies false by {
                    lemma_elem_facts(b@, pos as int, x);
                }
            }
            return None;
        },
    };
    proof {
        assert forall|x: ElemV| #[trigger] elem_at(b@, pos as int, x) implies name@ == x.name
            && attrs_view(attrs@) == x.attrs && p == pos + ser_open(x.name, x.attrs).len() by {
            lemma_elem_facts(b@, pos as int, x);
        }
    }
    if b.len() - p >= 2 && b[p] == 47 && b[p + 1] == 62 {
        let e = Element { name, attrs, text: Vec::new() };
        proof {
            assert(e@.text =~= Seq::<u8>::empty());
            assert(b@.subrange(pos as int, p + 2) =~= b@.subrange(pos as int, p as int)
                + empty_end());
            assert forall|x: ElemV| #[trigger] elem_at(b@, pos as int, x) implies e@ == x && p + 2
                == pos + ser_elem(x).len() by {
                lemma_elem_facts(b@, pos as int, x);
                if x.text.len() > 0 {
                    assert(b@[p as int] == 62);
                }
                assert(x.text =~= Seq::<u8>::empty());
            }
        }
        return Some((e, p + 2));
    }
    if p >= b.len() || b[p] != 62 {
        proof {
            assert forall|x: ElemV| #[trigger] elem_at(b@, pos as int, x) implies false by {
                lemma_elem_facts(b@, pos as int, x);
            }
        }
        return None;
    }
    let q = match find_byte(b, p + 1, 60) {
        Some(q) => q,
        None => {
            proof {
                assert forall|x: ElemV| #[trigger] elem_at(b@, pos as int, x) implies false by {
                    lemma_elem_facts(b@, pos as int, x);
                    assert(b@[p + 1 + esc(x.text, false).len()] == 60);
                }
            }
            return None;
        },
    };
    proof {
        assert forall|x: ElemV| #[trigger] elem_at(b@, pos as int, x) implies x.text.len() > 0 && q
            == p + 1 + esc(x.text, false).len() by {
            lemma_elem_facts(b@, pos as int, x);
            if q < p + 1 + esc(x.text, false).len() {
                assert(b@[q as int] != 60);
            }
            if q > p + 1 + esc(x.text, false).len() {
                assert(b@[p + 1 + esc(x.text, false).len()] != 60);
            }
        }
    }
    if q == p + 1 {
        return None;
    }
    let text = match unescape(b, p + 1, q, false) {
        Some(t) => t,
        None => {
            proof {
                assert forall|x: ElemV| #[trigger] elem_at(b@, pos as int, x) implies false by {
                    lemma_elem_facts(b@, pos as int, x);
                    assert(b@.subrange(p + 1, q as int) == b@.subrange(
                        p + 1,
                        p + 1 + esc(x.text, false).len(),
                    ));
                }
            }
            return None;
        },
    };
    proof {
        lemma_esc_unesc(b@.subrange(p + 1, q as int), false);
        lemma_esc_nonempty(text@, false);
    }
    let mut close: Vec<u8> = vec![60u8, 47u8];
    append_bytes(&mut close, name.as_slice());
    close.push(62u8);
    assert(close@ =~= ser_close(name@));
    if !has_at(b, q, close.as_slice()) {
        proof {
            assert forall|x: ElemV| #[trigger] elem_at(b@, pos as int, x) implies false by {
                lemma_elem_facts(b@, pos as int, x);
            }
        }
        return None;
    }
    let end = q + close.len();
    let e = Element { name, attrs, text };
    proof {
        assert(b@.subrange(pos as int, end as int) =~= b@.subrange(pos as int, p as int) + seq![62u8]
            + b@.subrange(p + 1, q as int) + b@.subrange(q as int, end as int));
        assert(b@.subrange(pos as int, end as int) =~= ser_elem(e@));
        assert forall|x: ElemV| #[trigger] elem_at(b@, pos as int, x) implies e@ == x && end == pos
            + ser_elem(x).len() by {
            lemma_elem_facts(b@, pos as int, x);
            assert(b@.subrange(p + 1, q as int) == b@.subrange(
                p + 1,
                p + 1 + esc(x.text, false).len(),
            ));
        }
    }
    Some((e, end))
}

pub proof fn lemma_ser_elems_prefix(es: Seq<ElemV>, k: int)
    requires
        0 <= k <= es.len(),
    ensures
        ser_elems(es.take(k)).len() <= ser_elems(es).len(),
        ser_elems(es) == ser_elems(es.take(k)) + ser_elems(es).skip(
            ser_elems(es.take(k)).len() as int,
        ),
    decreases es.len(),
{
    if k == es.len() {
        assert(es.take(k) =~= es);
    } else {
        assert(es.drop_last().take(k) =~= es.take(k));
        lemma_ser_elems_prefix(es.drop_last(), k);
    }
    let s = ser_elems(es);
    let t = ser_elems(es.take(k));
    assert(s =~= t + s.skip(t.len() as int));
}

/// `b` holds the elements `es` from `pos` on, followed by `</`.
pub open spec fn elems_at(b: Seq<u8>, pos: int, es: Seq<ElemV>) -> bool {
    &&& forall|j: int| 0 <= j < es.len() ==> wf_elem(#[trigger] es[j])
    &&& at(b, pos, ser_elems(es) + seq![60u8, 47u8])
}

proof fn lemma_elems_step(b: Seq<u8>, pos: int, es: Seq<ElemV>, k: int)
    requires
        elems_at(b, pos, es),
        0 <= k <= es.len(),
    ensures
        ({
            let i = pos + ser_elems(es.take(k)).len();
            &&& k < es.len() ==> elem_at(b, i, es[k])
            &&& k < es.len() ==> ser_elems(es.take(k + 1)).len() == ser_elems(es.take(k)).len()
                + ser_elem(es[k]).len()
            &&& k == es.len() ==> i + 2 <= b.len() && b[i] == 60 && b[i + 1] == 47
        }),
{
    let t = ser_elems(es.take(k));
    let c = seq![60u8, 47u8];
    lemma_ser_elems_prefix(es, k);
    let rest = ser_elems(es).skip(t.len() as int);
    if k < es.len() {
        lemma_ser_elems_prefix(es, k + 1);
        assert(es.take(k + 1).drop_last() =~= es.take(k));
        let t2 = ser_elems(es.take(k + 1));
        let x = ser_elem(es[k]);
        assert(t2 == t + x);
        let rest2 = ser_elems(es).skip(t2.len() as int);
        assert(ser_elems(es) + c =~= t + (x + (rest2 + c)));
        lemma_at_split(b, pos, t, x + (rest2 + c));
        lemma_at_split(b, pos + t.len(), x, rest2 + c);
    } else {
        assert(es.take(k) =~= es);
        lemma_at_split(b, pos, ser_elems(es), c);
        let i = pos + t.len();
        assert(b[i] == b.subrange(i, i + 2)[0]);
        assert(b[i + 1] == b.subrange(i, i + 2)[1]);
    }
}

/// Reads leaf elements from `pos` on, up to the `</` of the enclosing end tag.
fn parse_children(b: &[u8], pos: usize) -> (r: Option<(Vec<Element>, usize)>)
    requires
        pos <= b@.len(),
    ensures
        r matches Some((es, end)) ==> {
            &&& pos <= end <= b@.len()
            &&& forall|j: int| 0 <= j < es@.len() ==> wf_elem(#[trigger] elems_view(es@)[j])
            &&& b@.subrange(pos as int, end as int) == ser_elems(elems_view(es@))
        },
        forall|xs: Seq<ElemV>| #[trigger]
            elems_at(b@, pos as int, xs) ==> (r matches Some((es, end)) && elems_view(es@) == xs
                && end == pos + ser_elems(xs).len()),
{
    let mut children: Vec<Element> = Vec::new();
    let mut i: usize = pos;
    proof {
        assert(elems_view(children@) =~= Seq::<ElemV>::empty());
        assert(b@.subrange(pos as int, i as int) =~= ser_elems(elems_view(children@)));
        assert forall|xs: Seq<ElemV>| #[trigger] elems_at(b@, pos as int, xs) implies elems_view(
            children@,
        ) == xs.take(0) && i == pos + ser_elems(xs.take(0)).len() by {
            assert(xs.take(0) =~= Seq::<ElemV>::empty());
        }
    }
    while b.len() - i >= 2 && b[i] == 60 && b[i + 1] != 47
        invariant
            pos <= i <= b@.len(),
            forall|j: int| 0 <= j < children@.len() ==> wf_elem(#[trigger] elems_view(children@)[j]),
            b@.subrange(pos as int, i as int) == ser_elems(elems_view(children@)),
            forall|xs: Seq<ElemV>| #[trigger]
                elems_at(b@, pos as int, xs) ==> {
                    &&& children@.len() <= xs.len()
                    &&& elems_view(children@) == xs.take(children@.len() as int)
                    &&& i == pos + ser_elems(xs.take(children@.len() as int)).len()
                },
        decreases b@.len() - i,
    {
        let ghost k = children@.len() as int;
        proof {
            assert forall|xs: Seq<ElemV>| #[trigger] elems_at(b@, pos as int, xs) implies k < xs.len()
                && elem_at(b@, i as int, xs[k]) by {
                lemma_elems_step(b@, pos as int, xs, k);
            }
        }
        let (e, end) = match parse_elem(b, i) {
            Some(t) => t,
            None => {
                return None;
            },
        };
        let ghost old_children = elems_view(children@);
        children.push(e);
        proof {
            assert(elems_view(children@) =~= old_children.push(e@));
            assert(elems_view(children@).drop_last() =~= old_children);
            assert(b@.subrange(pos as int, end as int) =~= b@.subrange(pos as int, i as int)
                + b@.subrange(i as int, end as int));
            assert forall|j: int| 0 <= j < children@.len() implies wf_elem(
                #[trigger] elems_view(children@)[j],
            ) by {
                if j < k {
                    assert(elems_view(children@)[j] == old_children[j]);
                }
            }
            assert forall|xs: Seq<ElemV>| #[trigger] elems_at(b@, pos as int, xs) implies {
                &&& children@.len() <= xs.len()
                &&& elems_view(children@) == xs.take(children@.len() as int)
                &&& end == pos + ser_elems(xs.take(children@.len() as int)).len()
            } by {
                lemma_elems_step(b@, pos as int, xs, k);
                assert(xs.take(k + 1) =~= xs.take(k).push(xs[k]));
            }
        }
        i = end;
    }
    proof {
        assert forall|xs: Seq<ElemV>| #[trigger] elems_at(b@, pos as int, xs) implies elems_view(
            children@,
        ) == xs && i == pos + ser_elems(xs).len() by {
            let k = children@.len() as int;
            if k < xs.len() {
                lemma_elems_step(b@, pos as int, xs, k);
                let x = xs[k];
                lemma_elem_facts(b@, i as int, x);
                lemma_open_name(b@, i as int, x.name, x.attrs);
                assert(x.name[0] == b@[i + 1]);
            } else {
                lemma_elems_step(b@, pos as int, xs, k);
            }
            assert(xs.take(xs.len() as int) =~= xs);
        }
    }
    Some((children, i))
}

/// `b` holds exactly the document `d`.
pub open spec fn doc_is(b: Seq<u8>, d: DocV) -> bool {
    wf_doc(d) && b == ser_doc(d)
}

proof fn lemma_doc_parts(b: Seq<u8>, d: DocV)
    requires
        doc_is(b, d),
    ensures
        at(b, 0, declaration()),
        open_at(b, declaration().len() as int, d.name, d.attrs),
        ({
            let p = (declaration().len() + ser_open(d.name, d.attrs).len()) as int;
            let i = p + 1 + ser_elems(d.children).len();
            if d.children.len() == 0 {
                &&& b.len() == p + 2
                &&& b[p] == 47
                &&& b[p + 1] == 62
            } else {
                &&& b[p] == 62
                &&& elems_at(b, p + 1, d.children)
                &&& at(b, i, ser_close(d.name))
                &&& b.len() == i + ser_close(d.name).len()
            }
        }),
{
    let o = ser_open(d.name, d.attrs);
    let dl = declaration().len() as int;
    let c = ser_close(d.name);
    let tail = if d.children.len() == 0 {
        empty_end()
    } else {
        seq![62u8] + ser_elems(d.children) + c
    };
    assert(b =~= declaration() + (o + tail));
    assert(at(b, 0, declaration() + (o + tail))) by {
        assert(b.subrange(0, b.len() as int) =~= b);
    }
    lemma_at_split(b, 0, declaration(), o + tail);
    lemma_at_split(b, dl, o, tail);
    let p = dl + o.len();
    assert(b[p] == tail[0]);
    if d.children.len() == 0 {
        assert(b[p + 1] == tail[1]);
    } else {
        let es = ser_elems(d.children);
        assert(tail =~= seq![62u8] + ((es + seq![60u8, 47u8]) + c.skip(2)));
        lemma_at_split(b, p, seq![62u8], (es + seq![60u8, 47u8]) + c.skip(2));
        lemma_at_split(b, p + 1, es + seq![60u8, 47u8], c.skip(2));
        assert(tail =~= (seq![62u8] + es) + c);
        lemma_at_split(b, p, seq![62u8] + es, c);
    }
}

/// The input is not a document of the form that `encode` writes.
#[derive(Debug)]
pub struct XmlReaderErr {
    pub position: usize,
}

#[verifier::spinoff_prover]
/// Reads a document. It succeeds exactly on the bytes that `encode` writes, and
/// then returns the document that was written.
pub fn decode(b: &[u8]) -> (r: Result<Document, XmlReaderErr>)
    ensures
        r matches Ok(d) ==> wf_doc(d@) && ser_doc(d@) == b@,
        forall|d: DocV| #[trigger] doc_is(b@, d) ==> (r matches Ok(d2) && d2@ == d),
{
    let decl: Vec<u8> = vec![
        60u8, 63, 120, 109, 108, 32, 118, 101, 114, 115, 105, 111, 110, 61, 34, 49, 46, 48, 34, 32,
        101, 110, 99, 111, 100, 105, 110, 103, 61, 34, 85, 84, 70, 45, 56, 34, 63, 62, 10
    ];
    assert(decl@ =~= declaration());
    let dl = decl.len();
    proof {
        assert forall|d: DocV| #[trigger] doc_is(b@, d) implies open_at(b@, dl as int, d.name, d.attrs) by {
            lemma_doc_parts(b@, d);
        }
    }
    if !has_at(b, 0, decl.as_slice()) {
        proof {
            assert forall|d: DocV| #[trigger] doc_is(b@, d) implies false by {
                lemma_doc_parts(b@, d);
            }
        }
        return Err(XmlReaderErr { position: 0 });
    }
    let (name, attrs, p) = match parse_open(b, dl) {
        Some(t) => t,
        None => {
            return Err(XmlReaderErr { position: dl });
        },
    };
    assert(b@.subrange(0, p as int) =~= declaration() + b@.subrange(dl as int, p as int));
    if b.len() - p == 2 && b[p] == 47 && b[p + 1] == 62 {
        let d = Document { name, attrs, children: Vec::new() };
        proof {
            assert(d@.children =~= Seq::<ElemV>::empty());
            assert(b@ =~= b@.subrange(0, p as int) + empty_end());
            assert forall|d2: DocV| #[trigger] doc_is(b@, d2) implies d@ == d2 by {
                lemma_doc_parts(b@, d2);
                assert(d2.children =~= Seq::<ElemV>::empty());
            }
        }
        return Ok(d);
    }
    if p >= b.len() || b[p] != 62 {
        proof {
            assert forall|d: DocV| #[trigger] doc_is(b@, d) implies false by {
                lemma_doc_parts(b@, d);
            }
        }
        return Err(XmlReaderErr { position: p });
    }
    let (children, i) = match parse_children(b, p + 1) {
        Some(t) => t,
        None => {
            proof {
                assert forall|d: DocV| #[trigger] doc_is(b@, d) implies false by {
                    lemma_doc_parts(b@, d);
                }
            }
            return Err(XmlReaderErr { position: p });
        },
    };
    proof {
        assert forall|d: DocV| #[trigger] doc_is(b@, d) implies d.children.len() > 0
            && elems_view(children@) == d.children && i == p + 1 + ser_elems(d.children).len() by {
            lemma_doc_parts(b@, d);
        }
    }
    if children.len() == 0 {
        return Err(XmlReaderErr { position: i });
    }
    let mut close: Vec<u8> = vec![60u8, 47u8];
    append_bytes(&mut close, name.as_slice());
    close.push(62u8);
    assert(close@ =~= ser_close(name@));
    if !has_at(b, i, close.as_slice()) || b.len() - i != close.len() {
        proof {
            assert forall|d: DocV| #[trigger] doc_is(b@, d) implies false by {
                lemma_doc_parts(b@, d);
            }
        }
        return Err(XmlReaderErr { position: i });
    }
    let d = Document { name, attrs, children };
    proof {
        assert(b@ =~= b@.subrange(0, p as int) + seq![62u8] + b@.subrange(p + 1, i as int)
            + b@.subrange(i as int, b@.len() as int));
        assert(b@ =~= ser_doc(d@));
        assert forall|d2: DocV| #[trigger] doc_is(b@, d2) implies d@ == d2 by {
            lemma_doc_parts(b@, d2);
        }
    }
    Ok(d)
}

//------------ Attributes ----------------------------------------------------

/// The first attribute of `a` named `n` is at `i`.
pub open spec fn first_named(a: AttrsV, n: Seq<u8>, i: int) -> bool {
    0 <= i < a.len() && a[i].0 == n && forall|j: int| 0 <= j < i ==> #[trigger] a[j].0 != n
}

pub open spec fn has_named(a: AttrsV, n: Seq<u8>) -> bool {
    exists|i: int| 0 <= i < a.len() && #[trigger] a[i].0 == n
}

/// The value of the first attribute of `a` named `n`, if there is one.
pub open spec fn first_value(a: AttrsV, n: Seq<u8>) -> Option<Seq<u8>> {
    if has_named(a, n) {
        Some(a[choose|i: int| first_named(a, n, i)].1)
    } else {
        None
    }
}

pub proof fn lemma_has_first(a: AttrsV, n: Seq<u8>)
    requires
        has_named(a, n),
    ensures
        exists|i: int| first_named(a, n, i),
    decreases a.len(),
{
    if a[0].0 == n {
        assert(first_named(a, n, 0));
    } else {
        let t = choose|t: int| 0 <= t < a.len() && #[trigger] a[t].0 == n;
        assert(a.skip(1)[t - 1].0 == n);
        lemma_has_first(a.skip(1), n);
        let k = choose|k: int| first_named(a.skip(1), n, k);
        assert forall|j: int| 0 <= j < k + 1 implies #[trigger] a[j].0 != n by {
            if j > 0 {
                assert(a[j] == a.skip(1)[j - 1]);
            }
        }
        assert(first_named(a, n, k + 1));
    }
}

pub proof fn lemma_first_named_unique(a: AttrsV, n: Seq<u8>, i: int, j: int)
    requires
        first_named(a, n, i),
        first_named(a, n, j),
    ensures
        i == j,
{
    if i < j {
        assert(a[i].0 != n);
    }
    if j < i {
        assert(a[j].0 != n);
    }
}

/// Taking the first attribute named `n` gives its value and leaves the first values of
/// the other names as they were.
pub proof fn lemma_take_first(a: AttrsV, n: Seq<u8>, i: int)
    requires
        first_named(a, n, i),
    ensures
        first_value(a, n) == Some(a[i].1),
        a.remove(i).len() == a.len() - 1,
        forall|m: Seq<u8>| m != n ==> #[trigger] first_value(a.remove(i), m) == first_value(a, m),
{
    let j = choose|j: int| first_named(a, n, j);
    lemma_first_named_unique(a, n, i, j);
    let b = a.remove(i);
    assert(b.len() == a.len() - 1);
    assert forall|m: Seq<u8>| m != n implies #[trigger] first_value(b, m) == first_value(a, m) by {
        if has_named(a, m) {
            lemma_has_first(a, m);
            let k = choose|k: int| first_named(a, m, k);
            assert(k != i);
            let k2 = if k < i { k } else { k - 1 };
            assert(b[k2] == a[k]);
            assert forall|t: int| 0 <= t < k2 implies #[trigger] b[t].0 != m by {
                if t < i {
                    assert(b[t] == a[t]);
                } else {
                    assert(b[t] == a[t + 1]);
                }
            }
            assert(first_named(b, m, k2));
            assert(has_named(b, m));
            let k3 = choose|k3: int| first_named(b, m, k3);
            lemma_first_named_unique(b, m, k2, k3);
        } else {
            if has_named(b, m) {
                let t = choose|t: int| 0 <= t < b.len() && #[trigger] b[t].0 == m;
                if t < i {
                    assert(a[t].0 == m);
                } else {
                    assert(a[t + 1].0 == m);
                }
            }
        }
    }
}

/// Where `a` has no attribute named `n`, it has no first value for it.
pub proof fn lemma_no_first(a: AttrsV, n: Seq<u8>)
    requires
        !has_named(a, n),
    ensures
        first_value(a, n) is None,
{
}

#[derive(Debug)]
pub enum AttributesError {
    MissingAttribute(Vec<u8>),
    UnexpectedAttribute(Vec<u8>),
}

/// The attributes of an element that the reader has not taken yet.
pub struct Attributes {
    attrs: Vec<Attribute>,
}

impl View for Attributes {
    type V = AttrsV;

    closed spec fn view(&self) -> AttrsV {
        attrs_view(self.attrs@)
    }
}

impl Attributes {
    pub fn new(attrs: Vec<Attribute>) -> (r: Self)
        ensures
            r@ == attrs_view(attrs@),
    {
        Attributes { attrs }
    }

    /// Takes the value of the first attribute named `name`; an error where there is none.
    pub fn take_req(&mut self, name: &[u8]) -> (r: Result<Vec<u8>, AttributesError>)
        ensures
            r matches Ok(v) ==> exists|i: int|
                first_named(old(self)@, name@, i) && v@ == old(self)@[i].1 && final(self)@
                    == old(self)@.remove(i),
            r matches Err(e) ==> !has_named(old(self)@, name@) && final(self)@ == old(self)@ && (
            e matches AttributesError::MissingAttribute(n) && n@ == name@),
    {
        let ghost a = self@;
        let mut i: usize = 0;
        while i < self.attrs.len()
            invariant
                i <= self.attrs@.len(),
                a == self@,
                a == old(self)@,
                a == attrs_view(self.attrs@),
                forall|j: int| 0 <= j < i ==> #[trigger] a[j].0 != name@,
            decreases self.attrs@.len() - i,
        {
            if crate::text::bytes_eq(self.attrs[i].name.as_slice(), name) {
                let ghost before = self.attrs@;
                let at = self.attrs.remove(i);
                proof {
                    assert(at == before[i as int]);
                    assert(a[i as int].1 == at.value@);
                    assert(attrs_view(self.attrs@) =~= a.remove(i as int));
                    assert(first_named(a, name@, i as int));
                    assert(self@ == a.remove(i as int));
                    assert(exists|k: int|
                        first_named(a, name@, k) && at.value@ == a[k].1 && self@ == a.remove(k));
                }
                return Ok(at.value);
            }
            i = i + 1;
        }
        Err(AttributesError::MissingAttribute(crate::sync::copy_bytes(name)))
    }

    /// Succeeds when every attribute has been taken; else names the first left.
    pub fn exhausted(&self) -> (r: Result<(), AttributesError>)
        ensures
            r is Ok <==> self@.len() == 0,
            r matches Err(e) ==> (e matches AttributesError::UnexpectedAttribute(n) && n@
                == self@[0].0),
    {
        if self.attrs.len() == 0 {
            Ok(())
        } else {
            Err(AttributesError::UnexpectedAttribute(crate::sync::copy_bytes(self.attrs[0].name.as_slice())))
        }
    }
}

} // verus!
