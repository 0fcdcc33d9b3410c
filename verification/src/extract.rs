//! Markup text extraction: the collaborator that turns a marked-up document's
//! bytes into plain text, and the worker step that indexes such a document.
//!
//! The markup parser itself is an outside library; what the library adds and
//! verifies is the joining of its character-data segments (one separating
//! blank after each, so adjacent text nodes never fuse into a single token)
//! and the counting of the resulting terms.

use vstd::prelude::*;
use crate::ErrorKind;
use crate::index::{TermFreq, count_map, index_document};
use crate::lexer::tokens_of;

verus! {

/// The character-data segments the markup parser yields for a byte buffer,
/// in document order: a function of the bytes alone.
pub uninterp spec fn xml_text_segments(bytes: Seq<u8>) -> Seq<Seq<char>>;

/// Whether the markup parser accepts the byte buffer: it reads the document
/// to its end without yielding an error event. A function of the bytes
/// alone (the parser runs with its fixed default configuration over the
/// in-memory bytes, consulting nothing else).
pub uninterp spec fn xml_wf(bytes: Seq<u8>) -> bool;

/// Relies on xml::reader::EventReader: reading a document yields its events
/// in document order, the `Characters` events carrying the character data;
/// whether an error event appears, and what the segments are, depend on the
/// bytes alone. Succeeds exactly on the documents the parser accepts.
#[verifier::external_body]
fn read_text_segments(bytes: &[u8]) -> (r: Result<Vec<Vec<char>>, ErrorKind>)
    ensures
        r is Ok <==> xml_wf(bytes@),
        r matches Ok(segs) ==> segs.deep_view() == xml_text_segments(bytes@),
        r matches Err(e) ==> e == ErrorKind::Parse,
{
    let mut segs: Vec<Vec<char>> = Vec::new();
    for event in xml::reader::EventReader::new(bytes) {
        match event {
            Ok(xml::reader::XmlEvent::Characters(text)) => segs.push(text.chars().collect()),
            Ok(_) => {},
            Err(_) => return Err(ErrorKind::Parse),
        }
    }
    Ok(segs)
}

/// The extracted plain text: each segment followed by one separating blank.
pub open spec fn joined_text(segs: Seq<Seq<char>>) -> Seq<char>
    decreases segs.len(),
{
    if segs.len() == 0 {
        Seq::empty()
    } else {
        segs[0] + seq![' '] + joined_text(segs.skip(1))
    }
}

proof fn lemma_joined_text_snoc(s: Seq<Seq<char>>, x: Seq<char>)
    ensures
        joined_text(s.push(x)) == joined_text(s) + x + seq![' '],
    decreases s.len(),
{
    let u = s.push(x);
    if s.len() == 0 {
        assert(u[0] == x);
        assert(u.skip(1) =~= Seq::<Seq<char>>::empty());
        assert(joined_text(Seq::<Seq<char>>::empty()) =~= Seq::<char>::empty());
        assert(x + seq![' '] + Seq::<char>::empty() =~= joined_text(s) + x + seq![' ']);
    } else {
        assert(u[0] == s[0]);
        assert(u.skip(1) =~= s.skip(1).push(x));
        lemma_joined_text_snoc(s.skip(1), x);
        assert(s[0] + seq![' '] + (joined_text(s.skip(1)) + x + seq![' ']) =~= (s[0] + seq![' ']
            + joined_text(s.skip(1))) + x + seq![' ']);
    }
}

/// Extract a document's plain text: the concatenation of its character-data
/// segments, a separating blank after each. Succeeds exactly on the
/// documents the markup parser accepts; a rejected document is a parse
/// error, never silently replaced.
pub fn extract_text(bytes: &[u8]) -> (r: Result<Vec<char>, ErrorKind>)
    ensures
        r is Ok <==> xml_wf(bytes@),
        r matches Ok(t) ==> t@ == joined_text(xml_text_segments(bytes@)),
        r matches Err(e) ==> e == ErrorKind::Parse,
{
    let segs = match read_text_segments(bytes) {
        Ok(s) => s,
        Err(e) => {
            return Err(e);
        },
    };
    let ghost all = segs.deep_view();
    let mut out: Vec<char> = Vec::new();
    let mut i: usize = 0;
    proof {
        assert(all.take(0) =~= Seq::<Seq<char>>::empty());
        assert(out@ =~= joined_text(all.take(0)));
    }
    while i < segs.len()
        invariant
            i <= segs@.len(),
            all == segs.deep_view(),
            all == xml_text_segments(bytes@),
            segs@.len() == all.len(),
            out@ == joined_text(all.take(i as int)),
        decreases segs@.len() - i,
    {
        let ghost pre = out@;
        let seg = &segs[i];
        proof {
            assert(all[i as int] == segs@[i as int].deep_view());
            assert(segs@[i as int].deep_view() =~= seg@);
        }
        let mut j: usize = 0;
        while j < seg.len()
            invariant
                j <= seg@.len(),
                out@ == pre + seg@.take(j as int),
            decreases seg@.len() - j,
        {
            out.push(seg[j]);
            proof {
                assert(out@ =~= pre + seg@.take(j as int + 1));
            }
            j += 1;
        }
        out.push(' ');
        proof {
            assert(seg@.take(seg@.len() as int) =~= seg@);
            lemma_joined_text_snoc(all.take(i as int), all[i as int]);
            assert(all.take(i as int + 1) =~= all.take(i as int).push(all[i as int]));
            assert(out@ =~= joined_text(all.take(i as int + 1)));
        }
        i += 1;
    }
    proof {
        assert(all.take(all.len() as int) =~= all);
    }
    Ok(out)
}

/// One worker's computation: extract a document's text, then count its
/// terms. Every byte buffer the parser accepts yields exactly the frequency
/// table of the extracted text's tokens; every buffer it rejects yields a
/// parse error, so the caller can record the document as failed.
pub fn index_markup(bytes: &[u8]) -> (r: Result<TermFreq, ErrorKind>)
    ensures
        r is Ok <==> xml_wf(bytes@),
        r matches Ok(tf) ==> tf.wf() && tf.to_map() == count_map(
            tokens_of(joined_text(xml_text_segments(bytes@))),
        ),
        r matches Err(e) ==> e == ErrorKind::Parse,
{
    match extract_text(bytes) {
        Ok(text) => Ok(index_document(text.as_slice())),
        Err(e) => Err(e),
    }
}

} // verus!
