//! The locale transform: localization files in the payload use a simple
//! key-grouped `section.key = value` text format; they are turned into a
//! script-literal table mapping composite dotted keys to values, with
//! embedded quote characters escaped. Also the predicate that picks the
//! localization files out of a directory walk.

use crate::refs::views_of;
use crate::text::append_bytes;
use crate::text::ends_with;
use crate::text::ends_with_bytes;
use crate::text::find_byte;
use crate::text::is_match_at;
use crate::text::match_at;
use crate::text::replace_bytes;
use crate::text::replace_spec;
use crate::text::subrange_vec;
use vstd::prelude::*;

verus! {

pub const NEWLINE: u8 = 10;

pub const CARRIAGE: u8 = 13;

pub const SEMICOLON: u8 = 59;

pub const OPEN_BRACKET: u8 = 91;

pub const EQUALS: u8 = 61;

pub const APOSTROPHE: u8 = 39;

pub const BACKSLASH: u8 = 92;

pub const SLASH: u8 = 47;

/// A line with a trailing carriage return loses it: a line ends at a
/// newline, and a carriage return before it belongs to the separator.
pub open spec fn strip_cr(l: Seq<u8>) -> Seq<u8> {
    if l.len() > 0 && l.last() == CARRIAGE {
        l.drop_last()
    } else {
        l
    }
}

/// The lines of a text: separated by newlines, carriage returns stripped,
/// no empty final line after a trailing newline. `acc` is the partial line
/// already read.
pub open spec fn lines_acc(s: Seq<u8>, acc: Seq<u8>) -> Seq<Seq<u8>>
    decreases s.len(),
{
    if s.len() == 0 {
        if acc.len() == 0 {
            seq![]
        } else {
            seq![strip_cr(acc)]
        }
    } else if s[0] == NEWLINE {
        seq![strip_cr(acc)] + lines_acc(s.skip(1), seq![])
    } else {
        lines_acc(s.skip(1), acc.push(s[0]))
    }
}

/// The lines of a text.
pub open spec fn lines_spec(s: Seq<u8>) -> Seq<Seq<u8>> {
    lines_acc(s, seq![])
}

/// Splits a text into its lines.
pub fn split_lines(data: &[u8]) -> (out: Vec<Vec<u8>>)
    ensures
        views_of(out@) == lines_spec(data@),
{
    let mut out: Vec<Vec<u8>> = Vec::new();
    let mut i: usize = 0;
    let mut line_start: usize = 0;
    proof {
        assert(data@.skip(0) =~= data@);
        assert(data@.subrange(0, 0) =~= Seq::<u8>::empty());
        assert(views_of(out@) =~= Seq::<Seq<u8>>::empty());
        assert(views_of(out@) + lines_spec(data@) =~= lines_spec(data@));
    }
    while i < data.len()
        invariant
            line_start <= i <= data@.len(),
            views_of(out@) + lines_acc(data@.skip(i as int), data@.subrange(line_start as int, i as int))
                == lines_spec(data@),
        decreases data@.len() - i,
    {
        let ghost tail = data@.skip(i as int);
        let ghost acc = data@.subrange(line_start as int, i as int);
        proof {
            assert(tail[0] == data@[i as int]);
            assert(tail.skip(1) =~= data@.skip(i + 1));
        }
        if data[i] == NEWLINE {
            let end = if i > line_start && data[i - 1] == CARRIAGE {
                i - 1
            } else {
                i
            };
            let line = subrange_vec(data, line_start, end);
            proof {
                if acc.len() > 0 && acc.last() == CARRIAGE {
                    assert(line@ =~= strip_cr(acc));
                } else {
                    assert(line@ =~= strip_cr(acc));
                }
                assert(lines_acc(tail, acc) == seq![strip_cr(acc)] + lines_acc(
                    data@.skip(i + 1),
                    seq![],
                ));
            }
            let ghost pre = out@;
            out.push(line);
            proof {
                assert(views_of(out@) =~= views_of(pre) + seq![strip_cr(acc)]);
                assert((views_of(pre) + seq![strip_cr(acc)]) + lines_acc(
                    data@.skip(i + 1),
                    seq![],
                ) =~= views_of(pre) + (seq![strip_cr(acc)] + lines_acc(data@.skip(i + 1), seq![])));
                assert(data@.subrange(i + 1, i + 1) =~= Seq::<u8>::empty());
            }
            line_start = i + 1;
        } else {
            proof {
                assert(acc.push(data@[i as int]) =~= data@.subrange(line_start as int, i + 1));
            }
        }
        i = i + 1;
    }
    let ghost acc = data@.subrange(line_start as int, i as int);
    proof {
        assert(data@.skip(i as int) =~= Seq::<u8>::empty());
    }
    if line_start < i {
        let end = if data[i - 1] == CARRIAGE {
            i - 1
        } else {
            i
        };
        let line = subrange_vec(data, line_start, end);
        proof {
            assert(acc.len() > 0);
            assert(acc.last() == data@[i - 1]);
            assert(line@ =~= strip_cr(acc));
            assert(lines_acc(Seq::<u8>::empty(), acc) =~= seq![strip_cr(acc)]);
        }
        let ghost pre = out@;
        out.push(line);
        proof {
            assert(views_of(out@) =~= views_of(pre) + seq![strip_cr(acc)]);
        }
    } else {
        proof {
            assert(acc.len() == 0);
            assert(lines_acc(Seq::<u8>::empty(), acc) =~= Seq::<Seq<u8>>::empty());
            assert(views_of(out@) + Seq::<Seq<u8>>::empty() =~= views_of(out@));
        }
    }
    out
}

/// First position of `b` in `s`, if any.
pub open spec fn find_in(s: Seq<u8>, b: u8) -> Option<int>
    decreases s.len(),
{
    if s.len() == 0 {
        None
    } else if s[0] == b {
        Some(0int)
    } else {
        match find_in(s.skip(1), b) {
            None => None,
            Some(i) => Some(i + 1),
        }
    }
}

/// `find_in` finds exactly the first occurrence.
pub proof fn lemma_find_in(s: Seq<u8>, b: u8)
    ensures
        match find_in(s, b) {
            Some(i) => 0 <= i < s.len() && s[i] == b && forall|k: int| 0 <= k < i ==> s[k] != b,
            None => forall|k: int| 0 <= k < s.len() ==> s[k] != b,
        },
    decreases s.len(),
{
    if s.len() > 0 && s[0] != b {
        lemma_find_in(s.skip(1), b);
        let t = s.skip(1);
        assert(forall|k: int| 0 <= k < t.len() ==> t[k] == s[k + 1]);
        match find_in(t, b) {
            None => {
                assert forall|k: int| 0 <= k < s.len() implies s[k] != b by {
                    if k >= 1 {
                        assert(t[k - 1] == s[k]);
                    }
                }
            },
            Some(i) => {
                assert(s[i + 1] == b);
                assert forall|k: int| 0 <= k < i + 1 implies s[k] != b by {
                    if k >= 1 {
                        assert(t[k - 1] == s[k]);
                    }
                }
            },
        }
    }
}

/// A value with each quote character escaped.
pub open spec fn escape_value(v: Seq<u8>) -> Seq<u8> {
    replace_spec(v, seq![APOSTROPHE], seq![BACKSLASH, APOSTROPHE])
}

/// One table entry: `['group.key']='value',` — with the dot absent while no
/// group heading has been seen.
pub open spec fn entry_text(group: Seq<u8>, key: Seq<u8>, value: Seq<u8>) -> Seq<u8> {
    seq![OPEN_BRACKET, APOSTROPHE] + group + (if group.len() == 0 {
        Seq::<u8>::empty()
    } else {
        seq![46u8]
    }) + key + seq![APOSTROPHE, 93u8, EQUALS, APOSTROPHE] + escape_value(value) + seq![
        APOSTROPHE,
        44u8,
    ]
}

/// The group a heading line switches to: the bytes between the brackets.
/// A heading too short to hold both brackets is ignored.
pub open spec fn group_after(group: Seq<u8>, line: Seq<u8>) -> Seq<u8> {
    if line.len() >= 2 && line[0] == OPEN_BRACKET {
        line.subrange(1, line.len() - 1)
    } else {
        group
    }
}

/// What one line contributes to the table: nothing for an empty line, a
/// comment, a heading or a line without a separator; else one entry keyed
/// by the text before the separator, valued by the text after it.
pub open spec fn emitted_of(group: Seq<u8>, line: Seq<u8>) -> Seq<u8> {
    if line.len() == 0 || line[0] == SEMICOLON || line[0] == OPEN_BRACKET {
        Seq::<u8>::empty()
    } else {
        match find_in(line, EQUALS) {
            None => Seq::<u8>::empty(),
            Some(i) => entry_text(group, line.take(i), line.skip(i + 1)),
        }
    }
}

/// The table entries a sequence of lines produces, starting under `group`.
pub open spec fn cfg_entries_spec(lines: Seq<Seq<u8>>, group: Seq<u8>) -> Seq<u8>
    decreases lines.len(),
{
    if lines.len() == 0 {
        Seq::<u8>::empty()
    } else {
        emitted_of(group, lines[0]) + cfg_entries_spec(lines.skip(1), group_after(group, lines[0]))
    }
}

/// Appends one table entry to `out`.
fn push_entry(out: &mut Vec<u8>, group: &[u8], key: &[u8], value: &[u8])
    ensures
        final(out)@ == old(out)@ + entry_text(group@, key@, value@),
{
    out.push(OPEN_BRACKET);
    out.push(APOSTROPHE);
    append_bytes(out, group);
    if group.len() > 0 {
        out.push(46u8);
    }
    append_bytes(out, key);
    out.push(APOSTROPHE);
    out.push(93u8);
    out.push(EQUALS);
    out.push(APOSTROPHE);
    let mut pat: Vec<u8> = Vec::new();
    pat.push(APOSTROPHE);
    let mut rep: Vec<u8> = Vec::new();
    rep.push(BACKSLASH);
    rep.push(APOSTROPHE);
    proof {
        assert(pat@ =~= seq![APOSTROPHE]);
        assert(rep@ =~= seq![BACKSLASH, APOSTROPHE]);
    }
    let escaped = replace_bytes(value, pat.as_slice(), rep.as_slice());
    append_bytes(out, escaped.as_slice());
    out.push(APOSTROPHE);
    out.push(44u8);
    proof {
        assert(out@ =~= old(out)@ + entry_text(group@, key@, value@));
    }
}

/// Turns the lines of one localization file into table entries, each ended
/// by a comma.
pub fn cfg_entries(lines: &Vec<Vec<u8>>) -> (out: Vec<u8>)
    ensures
        out@ == cfg_entries_spec(views_of(lines@), Seq::<u8>::empty()),
{
    let ghost dv = views_of(lines@);
    let mut out: Vec<u8> = Vec::new();
    let mut group: Vec<u8> = Vec::new();
    let mut i: usize = 0;
    proof {
        assert(dv.skip(0) =~= dv);
        assert(group@ =~= Seq::<u8>::empty());
        assert(out@ + cfg_entries_spec(dv, group@) =~= cfg_entries_spec(dv, Seq::<u8>::empty()));
    }
    while i < lines.len()
        invariant
            i <= lines@.len(),
            dv == views_of(lines@),
            out@ + cfg_entries_spec(dv.skip(i as int), group@) == cfg_entries_spec(
                dv,
                Seq::<u8>::empty(),
            ),
        decreases lines@.len() - i,
    {
        let ghost tail = dv.skip(i as int);
        let ghost g0 = group@;
        proof {
            assert(tail[0] == dv[i as int]);
            assert(tail.skip(1) =~= dv.skip(i + 1));
            assert(cfg_entries_spec(tail, g0) == emitted_of(g0, dv[i as int]) + cfg_entries_spec(
                dv.skip(i + 1),
                group_after(g0, dv[i as int]),
            ));
        }
        let line = &lines[i];
        let ghost lv = dv[i as int];
        if line.len() == 0 || line[0] == SEMICOLON {
            proof {
                assert(emitted_of(g0, lv) =~= Seq::<u8>::empty());
                assert(group_after(g0, lv) == g0);
                assert(out@ + (Seq::<u8>::empty() + cfg_entries_spec(dv.skip(i + 1), g0)) =~= out@
                    + cfg_entries_spec(dv.skip(i + 1), g0));
            }
        } else if line[0] == OPEN_BRACKET {
            if line.len() >= 2 {
                group = subrange_vec(line.as_slice(), 1, line.len() - 1);
            }
            proof {
                assert(emitted_of(g0, lv) =~= Seq::<u8>::empty());
                assert(group@ == group_after(g0, lv));
                assert(out@ + (Seq::<u8>::empty() + cfg_entries_spec(dv.skip(i + 1), group@)) =~= out@
                    + cfg_entries_spec(dv.skip(i + 1), group@));
            }
        } else {
            match find_byte(line.as_slice(), 0, EQUALS) {
                None => {
                    proof {
                        lemma_find_in(lv, EQUALS);
                        assert(find_in(lv, EQUALS) is None) by {
                            if find_in(lv, EQUALS) is Some {
                                assert(lv[find_in(lv, EQUALS)->Some_0] == EQUALS);
                                assert(false);
                            }
                        }
                        assert(emitted_of(g0, lv) =~= Seq::<u8>::empty());
                        assert(group_after(g0, lv) == g0);
                        assert(out@ + (Seq::<u8>::empty() + cfg_entries_spec(dv.skip(i + 1), g0))
                            =~= out@ + cfg_entries_spec(dv.skip(i + 1), g0));
                    }
                },
                Some(idx) => {
                    proof {
                        lemma_find_in(lv, EQUALS);
                        assert(find_in(lv, EQUALS) == Some(idx as int)) by {
                            match find_in(lv, EQUALS) {
                                None => {
                                    assert(lv[idx as int] == EQUALS);
                                    assert(false);
                                },
                                Some(j) => {
                                    if j < idx {
                                        assert(lv[j] == EQUALS);
                                    } else if idx < j {
                                        assert(lv[idx as int] == EQUALS);
                                    }
                                },
                            }
                        }
                    }
                    let key = subrange_vec(line.as_slice(), 0, idx);
                    let value = subrange_vec(line.as_slice(), idx + 1, line.len());
                    proof {
                        assert(key@ =~= lv.take(idx as int));
                        assert(value@ =~= lv.skip(idx + 1));
                        assert(emitted_of(g0, lv) == entry_text(g0, key@, value@));
                        assert(group_after(g0, lv) == g0);
                    }
                    let ghost pre = out@;
                    push_entry(&mut out, group.as_slice(), key.as_slice(), value.as_slice());
                    proof {
                        assert((pre + emitted_of(g0, lv)) + cfg_entries_spec(dv.skip(i + 1), g0)
                            =~= pre + (emitted_of(g0, lv) + cfg_entries_spec(dv.skip(i + 1), g0)));
                    }
                },
            }
        }
        i = i + 1;
    }
    proof {
        assert(dv.skip(i as int) =~= Seq::<Seq<u8>>::empty());
        assert(cfg_entries_spec(Seq::<Seq<u8>>::empty(), group@) =~= Seq::<u8>::empty());
        assert(out@ + Seq::<u8>::empty() =~= out@);
    }
    out
}

/// Splits one localization file into lines and produces its table entries.
pub fn cfg_file_entries(data: &[u8]) -> (out: Vec<u8>)
    ensures
        out@ == cfg_entries_spec(lines_spec(data@), Seq::<u8>::empty()),
{
    let lines = split_lines(data);
    cfg_entries(&lines)
}

/// "return {", the head of the locale table literal.
pub open spec fn table_head() -> Seq<u8> {
    seq![114u8, 101u8, 116u8, 117u8, 114u8, 110u8, 32u8, 123u8]
}

/// "}", its tail.
pub open spec fn table_tail() -> Seq<u8> {
    seq![125u8]
}

/// Wraps the concatenated entries of all localization files into the
/// script-literal table.
pub fn locale_table(entries: &[u8]) -> (out: Vec<u8>)
    ensures
        out@ == table_head() + entries@ + table_tail(),
{
    let mut out: Vec<u8> = Vec::new();
    out.push(114u8);
    out.push(101u8);
    out.push(116u8);
    out.push(117u8);
    out.push(114u8);
    out.push(110u8);
    out.push(32u8);
    out.push(123u8);
    append_bytes(&mut out, entries);
    out.push(125u8);
    proof {
        assert(out@ =~= table_head() + entries@ + table_tail());
    }
    out
}

/// The entries of a run of localization files, concatenated in file order.
pub open spec fn entries_of_files(files: Seq<Seq<u8>>) -> Seq<u8>
    decreases files.len(),
{
    if files.len() == 0 {
        Seq::<u8>::empty()
    } else {
        cfg_entries_spec(lines_spec(files[0]), Seq::<u8>::empty()) + entries_of_files(
            files.skip(1),
        )
    }
}

/// Builds the locale table from the contents of every localization file:
/// each file's entries in file order, wrapped into the script literal.
pub fn locale_from_files(files: &Vec<Vec<u8>>) -> (out: Vec<u8>)
    ensures
        out@ == table_head() + entries_of_files(views_of(files@)) + table_tail(),
{
    let ghost fv = views_of(files@);
    let mut entries: Vec<u8> = Vec::new();
    let mut i: usize = 0;
    proof {
        assert(fv.skip(0) =~= fv);
        assert(entries@ + entries_of_files(fv) =~= entries_of_files(fv));
    }
    while i < files.len()
        invariant
            i <= files@.len(),
            fv == views_of(files@),
            entries@ + entries_of_files(fv.skip(i as int)) == entries_of_files(fv),
        decreases files@.len() - i,
    {
        let ghost tail = fv.skip(i as int);
        proof {
            assert(tail[0] == fv[i as int]);
            assert(tail.skip(1) =~= fv.skip(i + 1));
            assert(entries_of_files(tail) == cfg_entries_spec(
                lines_spec(fv[i as int]),
                Seq::<u8>::empty(),
            ) + entries_of_files(fv.skip(i + 1)));
        }
        let ghost pre = entries@;
        let file_entries = cfg_file_entries(files[i].as_slice());
        append_bytes(&mut entries, file_entries.as_slice());
        proof {
            assert((pre + file_entries@) + entries_of_files(fv.skip(i + 1)) =~= pre + (file_entries@
                + entries_of_files(fv.skip(i + 1))));
        }
        i = i + 1;
    }
    proof {
        assert(fv.skip(i as int) =~= Seq::<Seq<u8>>::empty());
        assert(entries_of_files(Seq::<Seq<u8>>::empty()) =~= Seq::<u8>::empty());
        assert(entries@ + Seq::<u8>::empty() =~= entries@);
    }
    locale_table(entries.as_slice())
}

/// "/locale/en/", the directory run that marks a localization file.
pub open spec fn locale_dir_token() -> Seq<u8> {
    seq![47u8, 108u8, 111u8, 99u8, 97u8, 108u8, 101u8, 47u8, 101u8, 110u8, 47u8]
}

/// ".cfg", the localization file extension.
pub open spec fn cfg_suffix() -> Seq<u8> {
    seq![46u8, 99u8, 102u8, 103u8]
}

/// A path names a localization file when it ends in the extension and its
/// final component — the part after the last separator — directly follows
/// a `/locale/en/` directory run.
pub open spec fn is_locale_cfg(p: Seq<u8>) -> bool {
    &&& ends_with(p, cfg_suffix())
    &&& exists|i: int|
        {
            &&& 0 <= i
            &&& #[trigger] is_match_at(p, locale_dir_token(), i)
            &&& i + locale_dir_token().len() + cfg_suffix().len() <= p.len()
            &&& forall|k: int| i + locale_dir_token().len() <= k < p.len() ==> p[k] != SLASH
        }
}

/// "/locale/en/" as bytes.
fn locale_dir_bytes() -> (r: Vec<u8>)
    ensures
        r@ == locale_dir_token(),
{
    let mut v: Vec<u8> = Vec::new();
    v.push(47u8);
    v.push(108u8);
    v.push(111u8);
    v.push(99u8);
    v.push(97u8);
    v.push(108u8);
    v.push(101u8);
    v.push(47u8);
    v.push(101u8);
    v.push(110u8);
    v.push(47u8);
    proof {
        assert(v@ =~= locale_dir_token());
    }
    v
}

/// ".cfg" as bytes.
fn cfg_suffix_bytes() -> (r: Vec<u8>)
    ensures
        r@ == cfg_suffix(),
{
    let mut v: Vec<u8> = Vec::new();
    v.push(46u8);
    v.push(99u8);
    v.push(102u8);
    v.push(103u8);
    proof {
        assert(v@ =~= cfg_suffix());
    }
    v
}

/// Whether a walked path names a localization file.
pub fn is_locale_cfg_path(p: &[u8]) -> (r: bool)
    ensures
        r <==> is_locale_cfg(p@),
{
    let token = locale_dir_bytes();
    let cfg = cfg_suffix_bytes();
    if !ends_with_bytes(p, cfg.as_slice()) {
        return false;
    }
    let mut best: Option<usize> = None;
    let mut i: usize = 0;
    while i < p.len()
        invariant
            token@ == locale_dir_token(),
            i <= p@.len(),
            match best {
                None => forall|k: int| 0 <= k < i ==> !is_match_at(p@, locale_dir_token(), k),
                Some(b) => {
                    &&& 0 <= b < i
                    &&& is_match_at(p@, locale_dir_token(), b as int)
                    &&& forall|k: int| b < k < i ==> !is_match_at(p@, locale_dir_token(), k)
                },
            },
        decreases p@.len() - i,
    {
        if match_at(p, token.as_slice(), i) {
            best = Some(i);
        }
        i = i + 1;
    }
    match best {
        None => {
            proof {
                if is_locale_cfg(p@) {
                    let w = choose|w: int|
                        {
                            &&& 0 <= w
                            &&& #[trigger] is_match_at(p@, locale_dir_token(), w)
                            &&& w + locale_dir_token().len() + cfg_suffix().len() <= p@.len()
                            &&& forall|k: int|
                                w + locale_dir_token().len() <= k < p@.len() ==> p@[k] != SLASH
                        };
                    assert(w < p@.len());
                    assert(false);
                }
            }
            false
        },
        Some(b) => {
            let tail_start = b + token.len();
            let long_enough = p.len() >= tail_start + cfg.len();
            let no_slash = match find_byte(p, tail_start, SLASH) {
                None => true,
                Some(_) => false,
            };
            proof {
                if long_enough && no_slash {
                    assert(is_match_at(p@, locale_dir_token(), b as int));
                    assert((b as int) + locale_dir_token().len() + cfg_suffix().len() <= p@.len());
                    assert(forall|k: int|
                        (b as int) + locale_dir_token().len() <= k < p@.len() ==> p@[k] != SLASH);
                    assert(is_locale_cfg(p@));
                } else {
                    if is_locale_cfg(p@) {
                        let w = choose|w: int|
                            {
                                &&& 0 <= w
                                &&& #[trigger] is_match_at(p@, locale_dir_token(), w)
                                &&& w + locale_dir_token().len() + cfg_suffix().len() <= p@.len()
                                &&& forall|k: int|
                                    w + locale_dir_token().len() <= k < p@.len() ==> p@[k] != SLASH
                            };
                        assert(w < p@.len());
                        assert(w <= b);
                        if w == b {
                            assert(false);
                        } else {
                            assert(p@[b + locale_dir_token().len() - 1] == SLASH);
                            assert(w + locale_dir_token().len() <= b + locale_dir_token().len() - 1
                                < p@.len());
                            assert(false);
                        }
                    }
                }
            }
            long_enough && no_slash
        },
    }
}

} // verus!
