//! Reference extraction: scanning the export document for quoted asset path
//! tokens that end in the image extension, deduplicating them, and resolving
//! each token to an input path (namespace placeholders replaced by on-disk
//! directory names) and an output path (the transcoded format's extension).

use crate::text::ends_with;
use crate::text::ends_with_bytes;
use crate::text::bytes_eq;
use crate::text::append_bytes;
use crate::text::replace_spec;
use crate::text::replace_bytes;
use crate::text::subrange_vec;
use crate::pool::WorkItem;
use vstd::prelude::*;

verus! {

/// The double-quote byte that delimits tokens in the export document.
pub const QUOTE: u8 = 34;

/// The byte views of a list of byte vectors.
pub open spec fn views_of(s: Seq<Vec<u8>>) -> Seq<Seq<u8>> {
    Seq::new(s.len(), |i: int| s[i]@)
}

/// No two elements alike.
pub open spec fn distinct_views(s: Seq<Seq<u8>>) -> bool {
    forall|i: int, j: int| 0 <= i < j < s.len() ==> s[i] != s[j]
}

/// ".png", the extension an asset reference ends in.
pub open spec fn png_suffix() -> Seq<u8> {
    seq![46u8, 112u8, 110u8, 103u8]
}

/// ".png" as bytes.
pub fn png_suffix_bytes() -> (r: Vec<u8>)
    ensures
        r@ == png_suffix(),
{
    let mut v: Vec<u8> = Vec::new();
    v.push(46u8);
    v.push(112u8);
    v.push(110u8);
    v.push(103u8);
    proof {
        assert(v@ =~= png_suffix());
    }
    v
}

/// ".basis", the transcoded format's extension.
pub open spec fn basis_suffix() -> Seq<u8> {
    seq![46u8, 98u8, 97u8, 115u8, 105u8, 115u8]
}

/// ".basis" as bytes.
pub fn basis_suffix_bytes() -> (r: Vec<u8>)
    ensures
        r@ == basis_suffix(),
{
    let mut v: Vec<u8> = Vec::new();
    v.push(46u8);
    v.push(98u8);
    v.push(97u8);
    v.push(115u8);
    v.push(105u8);
    v.push(115u8);
    proof {
        assert(v@ =~= basis_suffix());
    }
    v
}

/// "__core__", the namespace placeholder for the core component.
pub open spec fn core_token() -> Seq<u8> {
    seq![95u8, 95u8, 99u8, 111u8, 114u8, 101u8, 95u8, 95u8]
}

/// "__core__" as bytes.
pub fn core_token_bytes() -> (r: Vec<u8>)
    ensures
        r@ == core_token(),
{
    let mut v: Vec<u8> = Vec::new();
    v.push(95u8);
    v.push(95u8);
    v.push(99u8);
    v.push(111u8);
    v.push(114u8);
    v.push(101u8);
    v.push(95u8);
    v.push(95u8);
    proof {
        assert(v@ =~= core_token());
    }
    v
}

/// "core", the on-disk directory the core placeholder resolves to.
pub open spec fn core_name() -> Seq<u8> {
    seq![99u8, 111u8, 114u8, 101u8]
}

/// "core" as bytes.
pub fn core_name_bytes() -> (r: Vec<u8>)
    ensures
        r@ == core_name(),
{
    let mut v: Vec<u8> = Vec::new();
    v.push(99u8);
    v.push(111u8);
    v.push(114u8);
    v.push(101u8);
    proof {
        assert(v@ =~= core_name());
    }
    v
}

/// "__base__", the namespace placeholder for the base component.
pub open spec fn base_token() -> Seq<u8> {
    seq![95u8, 95u8, 98u8, 97u8, 115u8, 101u8, 95u8, 95u8]
}

/// "__base__" as bytes.
pub fn base_token_bytes() -> (r: Vec<u8>)
    ensures
        r@ == base_token(),
{
    let mut v: Vec<u8> = Vec::new();
    v.push(95u8);
    v.push(95u8);
    v.push(98u8);
    v.push(97u8);
    v.push(115u8);
    v.push(101u8);
    v.push(95u8);
    v.push(95u8);
    proof {
        assert(v@ =~= base_token());
    }
    v
}

/// "base", the on-disk directory the base placeholder resolves to.
pub open spec fn base_name() -> Seq<u8> {
    seq![98u8, 97u8, 115u8, 101u8]
}

/// "base" as bytes.
pub fn base_name_bytes() -> (r: Vec<u8>)
    ensures
        r@ == base_name(),
{
    let mut v: Vec<u8> = Vec::new();
    v.push(98u8);
    v.push(97u8);
    v.push(115u8);
    v.push(101u8);
    proof {
        assert(v@ =~= base_name());
    }
    v
}

/// "/", the path separator.
pub open spec fn slash() -> Seq<u8> {
    seq![47u8]
}

/// A token counts as an asset reference when it ends in the image extension
/// and has at least one byte before it.
pub open spec fn is_image_token(tok: Seq<u8>) -> bool {
    &&& tok.len() > png_suffix().len()
    &&& ends_with(tok, png_suffix())
}

/// The quoted-token scanner over the document: quotes are paired left to
/// right, the bytes between a pair form a token, and the image tokens are
/// collected in document order (with repeats).
pub open spec fn scan_quoted(doc: Seq<u8>, inside: Option<Seq<u8>>) -> Seq<Seq<u8>>
    decreases doc.len(),
{
    if doc.len() == 0 {
        seq![]
    } else {
        let c = doc[0];
        let rest = doc.skip(1);
        match inside {
            None => {
                if c == QUOTE {
                    scan_quoted(rest, Some(seq![]))
                } else {
                    scan_quoted(rest, None)
                }
            },
            Some(acc) => {
                if c == QUOTE {
                    if is_image_token(acc) {
                        seq![acc] + scan_quoted(rest, None)
                    } else {
                        scan_quoted(rest, None)
                    }
                } else {
                    scan_quoted(rest, Some(acc.push(c)))
                }
            },
        }
    }
}

/// The asset references of the export document, in order, with repeats.
pub open spec fn image_refs(doc: Seq<u8>) -> Seq<Seq<u8>> {
    scan_quoted(doc, None)
}

/// The scanner's state while the run is at position `i`: the token started
/// after the unmatched opening quote, if any.
pub open spec fn scan_state(doc: Seq<u8>, tstart: Option<usize>, i: int) -> Option<Seq<u8>> {
    match tstart {
        None => None,
        Some(t) => Some(doc.subrange(t as int, i)),
    }
}

/// Collects every quoted image token of the document, in order, repeats
/// included.
pub fn extract_image_refs(doc: &[u8]) -> (out: Vec<Vec<u8>>)
    ensures
        views_of(out@) == image_refs(doc@),
{
    let png = png_suffix_bytes();
    let mut out: Vec<Vec<u8>> = Vec::new();
    let mut i: usize = 0;
    let mut tstart: Option<usize> = None;
    proof {
        assert(doc@.skip(0) =~= doc@);
        assert(views_of(out@) =~= Seq::<Seq<u8>>::empty());
        assert(views_of(out@) + scan_quoted(doc@, None) =~= scan_quoted(doc@, None));
    }
    while i < doc.len()
        invariant
            i <= doc@.len(),
            png@ == png_suffix(),
            match tstart {
                Some(t) => t <= i,
                None => true,
            },
            views_of(out@) + scan_quoted(doc@.skip(i as int), scan_state(doc@, tstart, i as int))
                == image_refs(doc@),
        decreases doc@.len() - i,
    {
        let ghost tail = doc@.skip(i as int);
        let ghost st = scan_state(doc@, tstart, i as int);
        proof {
            assert(tail[0] == doc@[i as int]);
            assert(tail.skip(1) =~= doc@.skip(i + 1));
        }
        let c = doc[i];
        match tstart {
            None => {
                if c == QUOTE {
                    tstart = Some(i + 1);
                    proof {
                        assert(doc@.subrange(i + 1, i + 1) =~= Seq::<u8>::empty());
                        assert(scan_quoted(tail, None) == scan_quoted(
                            doc@.skip(i + 1),
                            Some(Seq::<u8>::empty()),
                        ));
                    }
                }
            },
            Some(t) => {
                let ghost acc = doc@.subrange(t as int, i as int);
                if c == QUOTE {
                    let token = subrange_vec(doc, t, i);
                    if token.len() > png.len() && ends_with_bytes(token.as_slice(), png.as_slice())
                        {
                        proof {
                            assert(scan_quoted(tail, st) == seq![acc] + scan_quoted(
                                doc@.skip(i + 1),
                                None,
                            ));
                            assert((views_of(out@) + seq![acc]) + scan_quoted(
                                doc@.skip(i + 1),
                                None,
                            ) =~= views_of(out@) + (seq![acc] + scan_quoted(doc@.skip(i + 1), None)));
                        }
                        let ghost pre = out@;
                        out.push(token);
                        proof {
                            assert(views_of(out@) =~= views_of(pre) + seq![acc]);
                        }
                    } else {
                        proof {
                            assert(!is_image_token(acc));
                            assert(scan_quoted(tail, st) == scan_quoted(doc@.skip(i + 1), None));
                        }
                    }
                    tstart = None;
                } else {
                    proof {
                        assert(acc.push(c) =~= doc@.subrange(t as int, i + 1));
                        assert(scan_quoted(tail, st) == scan_quoted(
                            doc@.skip(i + 1),
                            Some(doc@.subrange(t as int, i + 1)),
                        ));
                    }
                }
            },
        }
        i = i + 1;
    }
    proof {
        assert(doc@.skip(i as int) =~= Seq::<u8>::empty());
        assert(scan_quoted(Seq::<u8>::empty(), scan_state(doc@, tstart, i as int))
            =~= Seq::<Seq<u8>>::empty());
        assert(views_of(out@) + Seq::<Seq<u8>>::empty() =~= views_of(out@));
    }
    out
}

/// Whether some element of `v` has the bytes of `x`.
pub fn contains_bytes(v: &Vec<Vec<u8>>, x: &[u8]) -> (r: bool)
    ensures
        r <==> views_of(v@).contains(x@),
{
    let mut i: usize = 0;
    while i < v.len()
        invariant
            i <= v@.len(),
            forall|k: int| 0 <= k < i ==> views_of(v@)[k] != x@,
        decreases v@.len() - i,
    {
        if bytes_eq(v[i].as_slice(), x) {
            proof {
                assert(views_of(v@)[i as int] == x@);
            }
            return true;
        }
        i = i + 1;
    }
    proof {
        if views_of(v@).contains(x@) {
            let k = choose|k: int| 0 <= k < views_of(v@).len() && views_of(v@)[k] == x@;
            assert(false);
        }
    }
    false
}

/// The deduplicated asset references of the export document: each image
/// token the scanner finds appears exactly once, however often the document
/// repeats it.
pub fn extract_refs(doc: &[u8]) -> (out: Vec<Vec<u8>>)
    ensures
        distinct_views(views_of(out@)),
        forall|t: Seq<u8>| views_of(out@).contains(t) <==> image_refs(doc@).contains(t),
{
    let mut all = extract_image_refs(doc);
    let ghost orig = views_of(all@);
    let mut out: Vec<Vec<u8>> = Vec::new();
    proof {
        assert(views_of(out@) =~= Seq::<Seq<u8>>::empty());
    }
    while all.len() > 0
        invariant
            distinct_views(views_of(out@)),
            all@.len() <= orig.len(),
            views_of(all@) =~= orig.take(all@.len() as int),
            forall|t: Seq<u8>|
                views_of(out@).contains(t) ==> exists|k: int|
                    all@.len() <= k < orig.len() && orig[k] == t,
            forall|k: int|
                all@.len() <= k < orig.len() ==> views_of(out@).contains(#[trigger] orig[k]),
        decreases all@.len(),
    {
        let ghost pre_all = all@;
        let r = match all.pop() {
            Some(r) => r,
            None => {
                proof {
                    assert(false);
                }
                Vec::new()
            },
        };
        let ghost idx = all@.len() as int;
        proof {
            assert(all@ == pre_all.drop_last());
            assert(forall|k: int| 0 <= k < idx ==> all@[k] == pre_all[k]);
            assert(views_of(pre_all)[idx] == r@);
            assert(orig.take(pre_all.len() as int)[idx] == orig[idx]);
            assert(orig[idx] == r@);
            assert(views_of(all@) =~= orig.take(idx));
        }
        if !contains_bytes(&out, r.as_slice()) {
            let ghost pre = out@;
            out.push(r);
            proof {
                assert(views_of(out@) =~= views_of(pre).push(orig[idx]));
                assert forall|t: Seq<u8>| views_of(out@).contains(t) implies exists|k: int|
                    all@.len() <= k < orig.len() && orig[k] == t by {
                    let j = choose|j: int| 0 <= j < views_of(out@).len() && views_of(out@)[j] == t;
                    if j < views_of(pre).len() {
                        assert(views_of(pre).contains(t));
                        let k = choose|k: int| idx + 1 <= k < orig.len() && orig[k] == t;
                        assert(idx <= k < orig.len() && orig[k] == t);
                    } else {
                        assert(t == orig[idx]);
                        assert(idx <= idx < orig.len() && orig[idx] == t);
                    }
                }
                assert forall|k: int| idx <= k < orig.len() implies views_of(out@).contains(
                    #[trigger] orig[k],
                ) by {
                    if k == idx {
                        assert(views_of(out@)[views_of(out@).len() - 1] == orig[idx]);
                    } else {
                        assert(views_of(pre).contains(orig[k]));
                        let j = choose|j: int|
                            0 <= j < views_of(pre).len() && views_of(pre)[j] == orig[k];
                        assert(views_of(out@)[j] == orig[k]);
                    }
                }
            }
        } else {
            proof {
                assert(views_of(out@).contains(r@));
                assert forall|k: int| idx <= k < orig.len() implies views_of(out@).contains(
                    #[trigger] orig[k],
                ) by {
                    if k == idx {
                        assert(orig[k] == r@);
                    }
                }
                assert forall|t: Seq<u8>| views_of(out@).contains(t) implies exists|k: int|
                    all@.len() <= k < orig.len() && orig[k] == t by {
                    let k = choose|k: int| idx + 1 <= k < orig.len() && orig[k] == t;
                    assert(idx <= k < orig.len() && orig[k] == t);
                }
            }
        }
    }
    proof {
        assert(orig == image_refs(doc@));
        assert forall|t: Seq<u8>| views_of(out@).contains(t) implies image_refs(doc@).contains(
            t,
        ) by {
            let k = choose|k: int| 0 <= k < orig.len() && orig[k] == t;
        }
        assert forall|t: Seq<u8>| image_refs(doc@).contains(t) implies views_of(out@).contains(
            t,
        ) by {
            let k = choose|k: int| 0 <= k < orig.len() && orig[k] == t;
        }
    }
    out
}

/// A reference with each recognized namespace placeholder replaced by its
/// on-disk directory name. Unrecognized placeholders stay as literal text;
/// such a path later fails to open and the item is skipped with a logged
/// failure rather than aborting the run.
pub open spec fn substituted(r: Seq<u8>) -> Seq<u8> {
    replace_spec(replace_spec(r, core_token(), core_name()), base_token(), base_name())
}

/// The input path a reference resolves to: the data directory, the
/// separator, then the reference with its placeholders substituted.
pub open spec fn resolved_input(data_dir: Seq<u8>, r: Seq<u8>) -> Seq<u8> {
    data_dir + slash() + substituted(r)
}

/// The output path a reference maps to: the output directory, the
/// separator, then the substituted reference with the image extension
/// replaced by the transcoded format's extension — the output tree mirrors
/// the input tree's relative structure.
pub open spec fn derived_output(out_dir: Seq<u8>, r: Seq<u8>) -> Seq<u8> {
    out_dir + slash() + replace_spec(substituted(r), png_suffix(), basis_suffix())
}

/// The reference with its placeholders substituted, as bytes.
pub fn substitute_placeholders(r: &[u8]) -> (s: Vec<u8>)
    ensures
        s@ == substituted(r@),
{
    let core_tok = core_token_bytes();
    let base_tok = base_token_bytes();
    let step1 = replace_bytes(r, core_tok.as_slice(), core_name_bytes().as_slice());
    replace_bytes(step1.as_slice(), base_tok.as_slice(), base_name_bytes().as_slice())
}

/// Resolves one reference to its on-disk input path.
pub fn resolve_input(data_dir: &[u8], r: &[u8]) -> (p: Vec<u8>)
    ensures
        p@ == resolved_input(data_dir@, r@),
{
    let rel = substitute_placeholders(r);
    let mut p: Vec<u8> = Vec::new();
    append_bytes(&mut p, data_dir);
    p.push(47u8);
    append_bytes(&mut p, rel.as_slice());
    proof {
        assert(p@ =~= resolved_input(data_dir@, r@));
    }
    p
}

/// Derives the output path for one reference.
pub fn derive_output(out_dir: &[u8], r: &[u8]) -> (p: Vec<u8>)
    ensures
        p@ == derived_output(out_dir@, r@),
{
    let rel = substitute_placeholders(r);
    let png = png_suffix_bytes();
    let step = replace_bytes(rel.as_slice(), png.as_slice(), basis_suffix_bytes().as_slice());
    let mut p: Vec<u8> = Vec::new();
    append_bytes(&mut p, out_dir);
    p.push(47u8);
    append_bytes(&mut p, step.as_slice());
    proof {
        assert(p@ =~= derived_output(out_dir@, r@));
    }
    p
}

/// Builds one work item per reference, input and output paths both derived
/// from the reference alone.
pub fn make_work_items(refs: Vec<Vec<u8>>, data_dir: &[u8], out_dir: &[u8]) -> (items: Vec<
    WorkItem,
>)
    ensures
        items@.len() == refs@.len(),
        forall|i: int|
            0 <= i < items@.len() ==> (#[trigger] items@[i]).input@ == resolved_input(
                data_dir@,
                views_of(refs@)[i],
            ) && items@[i].output@ == derived_output(out_dir@, views_of(refs@)[i]),
{
    let ghost orig = views_of(refs@);
    let mut rest = refs;
    let mut items: Vec<WorkItem> = Vec::new();
    while rest.len() > 0
        invariant
            items@.len() + rest@.len() == orig.len(),
            forall|k: int| 0 <= k < rest@.len() ==> (#[trigger] rest@[k])@ == orig[items@.len() + k],
            forall|i: int|
                0 <= i < items@.len() ==> (#[trigger] items@[i]).input@ == resolved_input(
                    data_dir@,
                    orig[i],
                ) && items@[i].output@ == derived_output(out_dir@, orig[i]),
        decreases rest@.len(),
    {
        let r = rest.remove(0);
        let input = resolve_input(data_dir, r.as_slice());
        let output = derive_output(out_dir, r.as_slice());
        items.push(WorkItem { input, output });
    }
    items
}

} // verus!
