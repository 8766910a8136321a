use vstd::prelude::*;

use crate::config::{flag_active, Config};
use crate::lines::{clean_lines_spec, clean_piece, clean_pieces, is_space,
    lemma_clean_pieces_concat, lemma_clean_pieces_single, lemma_split_no_newline,
    lemma_split_peel_last, no_newline, split_lines, trim_end, trim_spec, trim_start};
use crate::output::{chop, output_model, plain_line, render_plain, repeated_entries,
    unique_entries};
use crate::table::{distinct_keys, entry_model, last_raw, lemma_distinct_no_dup,
    lemma_distinct_occ, occ_count, table_model, EntryModel};

verus! {

/// A well-formed line as the classifier produces it: non-empty, free of
/// newlines, and already trimmed.
pub open spec fn wf_line(x: Seq<u8>) -> bool {
    x.len() > 0 && no_newline(x) && trim_spec(x) == x
}

/// Every line of the list is well formed.
pub open spec fn wf_lines(ls: Seq<Seq<u8>>) -> bool {
    forall|j: int| 0 <= j < ls.len() ==> wf_line(ls[j])
}

/// The raw texts of an entry list, in order.
pub open spec fn raws_of(t: Seq<EntryModel>) -> Seq<Seq<u8>> {
    t.map_values(|e: EntryModel| e.raw)
}

proof fn lemma_trim_start_head(s: Seq<u8>)
    ensures
        trim_start(s).len() > 0 ==> !is_space(trim_start(s)[0]),
    decreases s.len(),
{
    if s.len() > 0 && is_space(s[0]) {
        lemma_trim_start_head(s.skip(1));
    }
}

proof fn lemma_trim_end_last(s: Seq<u8>)
    ensures
        trim_end(s).len() > 0 ==> !is_space(trim_end(s).last()),
    decreases s.len(),
{
    if s.len() > 0 && is_space(s.last()) {
        lemma_trim_end_last(s.drop_last());
    }
}

proof fn lemma_trim_end_head(s: Seq<u8>)
    ensures
        trim_end(s).len() > 0 ==> s.len() > 0 && trim_end(s)[0] == s[0],
    decreases s.len(),
{
    if s.len() > 0 && is_space(s.last()) {
        lemma_trim_end_head(s.drop_last());
    }
}

proof fn lemma_trim_start_no_newline(s: Seq<u8>)
    requires
        no_newline(s),
    ensures
        no_newline(trim_start(s)),
    decreases s.len(),
{
    if s.len() > 0 && is_space(s[0]) {
        assert(no_newline(s.skip(1)));
        lemma_trim_start_no_newline(s.skip(1));
    }
}

proof fn lemma_trim_end_no_newline(s: Seq<u8>)
    requires
        no_newline(s),
    ensures
        no_newline(trim_end(s)),
    decreases s.len(),
{
    if s.len() > 0 && is_space(s.last()) {
        assert(no_newline(s.drop_last()));
        lemma_trim_end_no_newline(s.drop_last());
    }
}

/// Trimming an already trimmed line changes nothing.
proof fn lemma_trim_fixed(x: Seq<u8>)
    ensures
        trim_spec(trim_spec(x)) == trim_spec(x),
{
    let ts = trim_start(x);
    let y = trim_spec(x);
    lemma_trim_start_head(x);
    lemma_trim_end_head(ts);
    lemma_trim_end_last(ts);
    if y.len() > 0 {
        assert(y[0] == ts[0]);
        assert(!is_space(y[0]));
        assert(trim_start(y) == y);
        assert(!is_space(y.last()));
        assert(trim_end(y) == y);
    } else {
        assert(trim_start(y) == y);
        assert(trim_end(y) == y);
    }
}

/// Every piece that splitting yields is free of newlines.
proof fn lemma_split_pieces_no_newline(s: Seq<u8>)
    ensures
        forall|j: int|
            0 <= j < split_lines(s).len() ==> #[trigger] no_newline(split_lines(s)[j]),
    decreases s.len(),
{
    if s.len() == 0 {
        assert(no_newline(split_lines(s)[0]));
    } else if s[0] == 10 {
        lemma_split_pieces_no_newline(s.skip(1));
        assert forall|j: int| 0 <= j < split_lines(s).len() implies #[trigger] no_newline(
            split_lines(s)[j],
        ) by {
            if j == 0 {
            } else {
                assert(split_lines(s)[j] == split_lines(s.skip(1))[j - 1]);
            }
        }
    } else {
        lemma_split_pieces_no_newline(s.skip(1));
        let rest = split_lines(s.skip(1));
        crate::lines::lemma_split_nonempty(s.skip(1));
        assert forall|j: int| 0 <= j < split_lines(s).len() implies #[trigger] no_newline(
            split_lines(s)[j],
        ) by {
            if j == 0 {
                assert(no_newline(rest[0]));
                assert(split_lines(s)[0] == seq![s[0]] + rest.first());
                assert(forall|m: int|
                    0 <= m < (seq![s[0]] + rest.first()).len() ==> (seq![s[0]]
                        + rest.first())[m] != 10);
            } else {
                assert(split_lines(s)[j] == rest.skip(1)[j - 1]);
                assert(rest.skip(1)[j - 1] == rest[j]);
            }
        }
    }
}

/// Every line the classifier produces is well formed.
proof fn lemma_clean_pieces_wf(ps: Seq<Seq<u8>>)
    requires
        forall|j: int| 0 <= j < ps.len() ==> #[trigger] no_newline(ps[j]),
    ensures
        wf_lines(clean_pieces(ps)),
    decreases ps.len(),
{
    if ps.len() > 0 {
        assert forall|j: int| 0 <= j < ps.skip(1).len() implies #[trigger] no_newline(
            ps.skip(1)[j],
        ) by {
            assert(ps.skip(1)[j] == ps[j + 1]);
        }
        lemma_clean_pieces_wf(ps.skip(1));
        let head = clean_piece(ps.first());
        let rest = clean_pieces(ps.skip(1));
        assert(no_newline(ps[0]));
        lemma_trim_start_no_newline(ps.first());
        lemma_trim_end_no_newline(trim_start(ps.first()));
        lemma_trim_fixed(ps.first());
        assert forall|j: int| 0 <= j < clean_pieces(ps).len() implies wf_line(
            clean_pieces(ps)[j],
        ) by {
            if j < head.len() {
                assert(clean_pieces(ps)[j] == head[j]);
            } else {
                assert(clean_pieces(ps)[j] == rest[j - head.len()]);
            }
        }
    }
}

/// The classifier only produces trimmed, non-empty, newline-free lines.
pub proof fn lemma_clean_lines_wf(s: Seq<u8>)
    ensures
        wf_lines(clean_lines_spec(s)),
{
    lemma_split_pieces_no_newline(s);
    lemma_clean_pieces_wf(split_lines(s));
}

/// With case folding off, a key occurs exactly when it is one of the lines.
pub proof fn lemma_occ_contains(ls: Seq<Seq<u8>>, k: Seq<u8>)
    ensures
        occ_count(ls, false, k) > 0 <==> ls.contains(k),
    decreases ls.len(),
{
    if ls.len() > 0 {
        lemma_occ_contains(ls.drop_last(), k);
        if ls.last() == k {
            assert(ls[ls.len() - 1] == k);
            assert(ls.contains(k));
        } else {
            if occ_count(ls, false, k) > 0 {
                assert(ls.drop_last().contains(k));
                let j = choose|j: int| 0 <= j < ls.drop_last().len() && ls.drop_last()[j] == k;
                assert(ls[j] == k);
            }
            if ls.contains(k) {
                let j = choose|j: int| 0 <= j < ls.len() && ls[j] == k;
                assert(j < ls.len() - 1);
                assert(ls.drop_last()[j] == k);
            }
        }
    }
}

/// With case folding off, the last line carrying a key is the key itself.
pub proof fn lemma_last_raw_self(ls: Seq<Seq<u8>>, k: Seq<u8>)
    requires
        occ_count(ls, false, k) > 0,
    ensures
        last_raw(ls, false, k) == k,
    decreases ls.len(),
{
    if ls.len() > 0 && ls.last() != k {
        lemma_last_raw_self(ls.drop_last(), k);
    }
}

/// A non-empty rendering ends with a newline, and removing it leaves the
/// earlier lines plus the last raw text.
proof fn lemma_render_plain_last(t: Seq<EntryModel>)
    requires
        t.len() > 0,
    ensures
        render_plain(t).len() > 0,
        chop(render_plain(t)) == render_plain(t.drop_last()) + t.last().raw,
        render_plain(t) == chop(render_plain(t)) + seq![10u8],
{
    let r = render_plain(t.drop_last());
    assert(render_plain(t) == r + plain_line(t.last()));
    assert((r + (t.last().raw + seq![10u8])).drop_last() =~= r + t.last().raw);
    assert(render_plain(t) =~= (r + t.last().raw) + seq![10u8]);
}

/// The plain rendering only depends on the raw texts.
proof fn lemma_render_plain_raws(t1: Seq<EntryModel>, t2: Seq<EntryModel>)
    requires
        t1.len() == t2.len(),
        forall|j: int| 0 <= j < t1.len() ==> t1[j].raw == t2[j].raw,
    ensures
        render_plain(t1) == render_plain(t2),
    decreases t1.len(),
{
    if t1.len() > 0 {
        lemma_render_plain_raws(t1.drop_last(), t2.drop_last());
        assert(t1.last().raw == t2.last().raw);
        assert(plain_line(t1.last()) == plain_line(t2.last()));
    }
}

/// Splitting the rendering at the newline before its last line.
proof fn lemma_clean_peel_last(u: Seq<u8>, v: Seq<u8>)
    requires
        no_newline(v),
    ensures
        clean_lines_spec(u + seq![10u8] + v) == clean_lines_spec(u) + clean_piece(v),
{
    lemma_split_peel_last(u, v);
    lemma_clean_pieces_concat(split_lines(u), seq![v]);
    lemma_clean_pieces_single(v);
}

/// Reading a rendering back through the classifier recovers exactly the raw
/// texts that were rendered.
proof fn lemma_render_round_trip(t: Seq<EntryModel>)
    requires
        forall|j: int| 0 <= j < t.len() ==> #[trigger] wf_line(t[j].raw),
    ensures
        clean_lines_spec(chop(render_plain(t))) == raws_of(t),
    decreases t.len(),
{
    if t.len() == 0 {
        assert(chop(render_plain(t)) == Seq::<u8>::empty());
        assert(no_newline(Seq::<u8>::empty()));
        lemma_split_no_newline(Seq::<u8>::empty());
        lemma_clean_pieces_single(Seq::<u8>::empty());
        assert(trim_start(Seq::<u8>::empty()) == Seq::<u8>::empty());
        assert(trim_end(Seq::<u8>::empty()) == Seq::<u8>::empty());
        assert(clean_piece(Seq::<u8>::empty()) =~= Seq::<Seq<u8>>::empty());
        assert(clean_lines_spec(chop(render_plain(t))) =~= raws_of(t));
    } else {
        let t0 = t.drop_last();
        let e = t.last();
        assert(wf_line(t[t.len() - 1].raw));
        assert forall|j: int| 0 <= j < t0.len() implies #[trigger] wf_line(t0[j].raw) by {
            assert(t0[j] == t[j]);
        }
        lemma_render_round_trip(t0);
        lemma_render_plain_last(t);
        if t0.len() == 0 {
            assert(render_plain(t0) == Seq::<u8>::empty());
            assert(chop(render_plain(t)) =~= e.raw);
            lemma_split_no_newline(e.raw);
            lemma_clean_pieces_single(e.raw);
            assert(trim_spec(e.raw) == e.raw);
            assert(clean_piece(e.raw) =~= seq![e.raw]);
            assert(clean_lines_spec(chop(render_plain(t))) =~= raws_of(t));
        } else {
            lemma_render_plain_last(t0);
            let u = chop(render_plain(t0));
            assert(render_plain(t0) == u + seq![10u8]);
            assert(chop(render_plain(t)) =~= u + seq![10u8] + e.raw);
            lemma_clean_peel_last(u, e.raw);
            assert(trim_spec(e.raw) == e.raw);
            assert(clean_piece(e.raw) =~= seq![e.raw]);
            assert(clean_lines_spec(chop(render_plain(t))) == raws_of(t0) + seq![e.raw]);
            assert(raws_of(t0) + seq![e.raw] =~= raws_of(t));
        }
    }
}

/// Without case folding, every raw text in the table is a well-formed line.
proof fn lemma_table_wf(s: Seq<u8>)
    ensures
        ({
            let t = table_model(clean_lines_spec(s), false);
            forall|j: int| 0 <= j < t.len() ==> #[trigger] wf_line(t[j].raw)
        }),
{
    let ls = clean_lines_spec(s);
    let dk = distinct_keys(ls, false);
    let t = table_model(ls, false);
    lemma_clean_lines_wf(s);
    assert forall|j: int| 0 <= j < t.len() implies #[trigger] wf_line(t[j].raw) by {
        assert(t[j] == entry_model(ls, false, dk[j]));
        assert(dk.contains(dk[j]));
        lemma_distinct_occ(ls, false, dk[j]);
        lemma_last_raw_self(ls, dk[j]);
        lemma_occ_contains(ls, dk[j]);
        let m = choose|m: int| 0 <= m < ls.len() && ls[m] == dk[j];
        assert(wf_line(ls[m]));
    }
}

/// In the default mode the table's raw texts are exactly the distinct keys.
proof fn lemma_default_raws(ls: Seq<Seq<u8>>)
    ensures
        raws_of(table_model(ls, false)) == distinct_keys(ls, false),
{
    let dk = distinct_keys(ls, false);
    let t = table_model(ls, false);
    assert forall|j: int| 0 <= j < t.len() implies t[j].raw == dk[j] by {
        assert(t[j] == entry_model(ls, false, dk[j]));
        assert(dk.contains(dk[j]));
        lemma_distinct_occ(ls, false, dk[j]);
        lemma_last_raw_self(ls, dk[j]);
    }
    assert(raws_of(t) =~= dk);
}

/// For any input, reading the default-mode output back as lines gives, as a
/// set, exactly the trimmed non-empty lines of the input: nothing is lost
/// and nothing but duplicates is removed.
pub proof fn lemma_default_output_line_set(c: Config, s: Seq<u8>)
    requires
        !flag_active(c),
    ensures
        clean_lines_spec(output_model(c, s)).to_set() == clean_lines_spec(s).to_set(),
{
    let ls = clean_lines_spec(s);
    let dk = distinct_keys(ls, false);
    let t = table_model(ls, false);
    lemma_clean_lines_wf(s);
    lemma_default_raws(ls);
    lemma_table_wf(s);
    lemma_render_round_trip(t);
    assert(output_model(c, s) == chop(render_plain(t)));
    assert(clean_lines_spec(output_model(c, s)) == dk);
    assert forall|x: Seq<u8>| dk.contains(x) == ls.contains(x) by {
        lemma_distinct_occ(ls, false, x);
        lemma_occ_contains(ls, x);
    }
    assert(dk.to_set() =~= ls.to_set());
}

/// The distinct keys of an already deduplicated line list are the list
/// itself.
proof fn lemma_distinct_identity(d: Seq<Seq<u8>>)
    requires
        forall|a: int, b: int| 0 <= a < b < d.len() ==> d[a] != d[b],
    ensures
        distinct_keys(d, false) == d,
    decreases d.len(),
{
    if d.len() > 0 {
        let dd = d.drop_last();
        assert(forall|a: int, b: int| 0 <= a < b < dd.len() ==> dd[a] != dd[b]);
        lemma_distinct_identity(dd);
        if dd.contains(d.last()) {
            let j = choose|j: int| 0 <= j < dd.len() && dd[j] == d.last();
            assert(d[j] == d[d.len() - 1]);
            assert(false);
        }
        assert(distinct_keys(d, false) == dd.push(d.last()));
        assert(dd.push(d.last()) =~= d);
    }
}

/// Running the filter in default mode on its own default-mode output gives
/// that output back unchanged.
pub proof fn lemma_default_idempotent(c: Config, s: Seq<u8>)
    requires
        !flag_active(c),
    ensures
        output_model(c, output_model(c, s)) == output_model(c, s),
{
    let ls = clean_lines_spec(s);
    let dk = distinct_keys(ls, false);
    let t = table_model(ls, false);
    let o = output_model(c, s);
    lemma_clean_lines_wf(s);
    lemma_default_raws(ls);
    lemma_table_wf(s);
    lemma_render_round_trip(t);
    assert(o == chop(render_plain(t)));
    assert(clean_lines_spec(o) == dk);
    lemma_distinct_no_dup(ls, false);
    lemma_distinct_identity(dk);
    let t2 = table_model(dk, false);
    lemma_default_raws(dk);
    assert(raws_of(t2) == distinct_keys(dk, false));
    assert(raws_of(t2) == dk);
    assert(t2.len() == dk.len() && t.len() == dk.len());
    assert forall|j: int| 0 <= j < t2.len() implies t2[j].raw == t[j].raw by {
        assert(raws_of(t2)[j] == t2[j].raw);
        assert(raws_of(t)[j] == t[j].raw);
    }
    lemma_render_plain_raws(t2, t);
    assert(output_model(c, o) == chop(render_plain(t2)));
}

/// Membership in the repeated selection.
proof fn lemma_repeated_mem(t: Seq<EntryModel>, e: EntryModel)
    ensures
        repeated_entries(t).contains(e) <==> t.contains(e) && e.count > 1,
    decreases t.len(),
{
    if t.len() > 0 {
        lemma_repeated_mem(t.drop_last(), e);
        let prev = repeated_entries(t.drop_last());
        if t.drop_last().contains(e) {
            let j = choose|j: int| 0 <= j < t.drop_last().len() && t.drop_last()[j] == e;
            assert(t[j] == e);
        }
        if t.last().count > 1 {
            assert(repeated_entries(t) == prev.push(t.last()));
            if prev.push(t.last()).contains(e) {
                let j = choose|j: int|
                    0 <= j < prev.push(t.last()).len() && prev.push(t.last())[j] == e;
                if j < prev.len() {
                    assert(prev.contains(e));
                } else {
                    assert(e == t.last());
                    assert(t[t.len() - 1] == e);
                }
            }
            if t.contains(e) && e.count > 1 {
                let j = choose|j: int| 0 <= j < t.len() && t[j] == e;
                if j < t.len() - 1 {
                    assert(t.drop_last()[j] == e);
                    assert(prev.contains(e));
                    let m = choose|m: int| 0 <= m < prev.len() && prev[m] == e;
                    assert(prev.push(t.last())[m] == e);
                } else {
                    assert(prev.push(t.last())[prev.len() as int] == e);
                }
            }
        } else {
            assert(repeated_entries(t) == prev);
            if t.contains(e) && e.count > 1 {
                let j = choose|j: int| 0 <= j < t.len() && t[j] == e;
                assert(j < t.len() - 1);
                assert(t.drop_last()[j] == e);
            }
        }
    }
}

/// Membership in the unique selection.
proof fn lemma_unique_mem(t: Seq<EntryModel>, e: EntryModel)
    ensures
        unique_entries(t).contains(e) <==> t.contains(e) && e.count == 1,
    decreases t.len(),
{
    if t.len() > 0 {
        lemma_unique_mem(t.drop_last(), e);
        let prev = unique_entries(t.drop_last());
        if t.drop_last().contains(e) {
            let j = choose|j: int| 0 <= j < t.drop_last().len() && t.drop_last()[j] == e;
            assert(t[j] == e);
        }
        if t.last().count == 1 {
            assert(unique_entries(t) == prev.push(t.last()));
            if prev.push(t.last()).contains(e) {
                let j = choose|j: int|
                    0 <= j < prev.push(t.last()).len() && prev.push(t.last())[j] == e;
                if j < prev.len() {
                    assert(prev.contains(e));
                } else {
                    assert(e == t.last());
                    assert(t[t.len() - 1] == e);
                }
            }
            if t.contains(e) && e.count == 1 {
                let j = choose|j: int| 0 <= j < t.len() && t[j] == e;
                if j < t.len() - 1 {
                    assert(t.drop_last()[j] == e);
                    assert(prev.contains(e));
                    let m = choose|m: int| 0 <= m < prev.len() && prev[m] == e;
                    assert(prev.push(t.last())[m] == e);
                } else {
                    assert(prev.push(t.last())[prev.len() as int] == e);
                }
            }
        } else {
            assert(unique_entries(t) == prev);
            if t.contains(e) && e.count == 1 {
                let j = choose|j: int| 0 <= j < t.len() && t[j] == e;
                assert(j < t.len() - 1);
                assert(t.drop_last()[j] == e);
            }
        }
    }
}

/// Every table entry counts at least one line, and the repeated and unique
/// selections partition the table: no entry is in both, and together they
/// cover it.
pub proof fn lemma_repeated_unique_partition(s: Seq<u8>, ic: bool)
    ensures
        ({
            let t = table_model(clean_lines_spec(s), ic);
            &&& forall|e: EntryModel| #[trigger] t.contains(e) ==> e.count >= 1
            &&& forall|e: EntryModel|
                #[trigger] repeated_entries(t).contains(e) <==> t.contains(e) && e.count > 1
            &&& forall|e: EntryModel|
                #[trigger] unique_entries(t).contains(e) <==> t.contains(e) && e.count == 1
            &&& forall|e: EntryModel| #[trigger] t.contains(e) ==> (repeated_entries(t).contains(e)
                <==> !unique_entries(t).contains(e))
        }),
{
    let ls = clean_lines_spec(s);
    let dk = distinct_keys(ls, ic);
    let t = table_model(ls, ic);
    assert forall|e: EntryModel| #[trigger] t.contains(e) implies e.count >= 1 by {
        let j = choose|j: int| 0 <= j < t.len() && t[j] == e;
        assert(t[j] == entry_model(ls, ic, dk[j]));
        assert(dk.contains(dk[j]));
        lemma_distinct_occ(ls, ic, dk[j]);
    }
    assert forall|e: EntryModel|
        #[trigger] repeated_entries(t).contains(e) <==> t.contains(e) && e.count > 1 by {
        lemma_repeated_mem(t, e);
    }
    assert forall|e: EntryModel|
        #[trigger] unique_entries(t).contains(e) <==> t.contains(e) && e.count == 1 by {
        lemma_unique_mem(t, e);
    }
}

/// With the unique flag set, every other selection flag is overridden: two
/// configurations that both ask for unique-only output produce the same
/// bytes whatever their count and repeated flags say, so `-c -u` matches a
/// plain `-u` run.
pub proof fn lemma_last_stage_wins(c1: Config, c2: Config, s: Seq<u8>)
    requires
        c1.unique,
        c2.unique,
        c1.ignore_case == c2.ignore_case,
    ensures
        output_model(c1, s) == output_model(c2, s),
{
}

/// Reading the repeated-only output back as lines gives exactly the lines
/// of the input that occurred more than once.
pub proof fn lemma_repeated_output_line_set(c: Config, s: Seq<u8>)
    requires
        c.repeated,
        !c.unique,
        !c.ignore_case,
    ensures
        forall|x: Seq<u8>|
            #![trigger clean_lines_spec(output_model(c, s)).contains(x)]
            clean_lines_spec(output_model(c, s)).contains(x) <==> occ_count(
                clean_lines_spec(s),
                false,
                x,
            ) > 1,
{
    let ls = clean_lines_spec(s);
    let dk = distinct_keys(ls, false);
    let t = table_model(ls, false);
    let sel = repeated_entries(t);
    lemma_table_wf(s);
    assert forall|j: int| 0 <= j < sel.len() implies #[trigger] wf_line(sel[j].raw) by {
        assert(sel.contains(sel[j]));
        lemma_repeated_mem(t, sel[j]);
        let m = choose|m: int| 0 <= m < t.len() && t[m] == sel[j];
        assert(wf_line(t[m].raw));
    }
    lemma_render_round_trip(sel);
    assert(output_model(c, s) == chop(render_plain(sel)));
    assert forall|x: Seq<u8>|
        #[trigger] raws_of(sel).contains(x) == (occ_count(ls, false, x) > 1) by {
        if raws_of(sel).contains(x) {
            let j = choose|j: int| 0 <= j < raws_of(sel).len() && raws_of(sel)[j] == x;
            let e = sel[j];
            assert(e.raw == x);
            assert(sel.contains(e));
            lemma_repeated_mem(t, e);
            let m = choose|m: int| 0 <= m < t.len() && t[m] == e;
            assert(e == entry_model(ls, false, dk[m]));
            assert(dk.contains(dk[m]));
            lemma_distinct_occ(ls, false, dk[m]);
            lemma_last_raw_self(ls, dk[m]);
            assert(x == dk[m]);
            assert(occ_count(ls, false, x) > 1);
        }
        if occ_count(ls, false, x) > 1 {
            lemma_distinct_occ(ls, false, x);
            assert(dk.contains(x));
            let m = choose|m: int| 0 <= m < dk.len() && dk[m] == x;
            let e = entry_model(ls, false, x);
            assert(table_model(ls, false)[m] == entry_model(ls, false, dk[m]));
            assert(t[m] == e);
            assert(t.contains(e));
            lemma_repeated_mem(t, e);
            assert(sel.contains(e));
            let j = choose|j: int| 0 <= j < sel.len() && sel[j] == e;
            lemma_last_raw_self(ls, x);
            assert(raws_of(sel)[j] == x);
            assert(raws_of(sel).contains(x));
        }
    }
}

/// Reading the unique-only output back as lines gives exactly the lines of
/// the input that occurred once.
pub proof fn lemma_unique_output_line_set(c: Config, s: Seq<u8>)
    requires
        c.unique,
        !c.ignore_case,
    ensures
        forall|x: Seq<u8>|
            #![trigger clean_lines_spec(output_model(c, s)).contains(x)]
            clean_lines_spec(output_model(c, s)).contains(x) <==> occ_count(
                clean_lines_spec(s),
                false,
                x,
            ) == 1,
{
    let ls = clean_lines_spec(s);
    let dk = distinct_keys(ls, false);
    let t = table_model(ls, false);
    let sel = unique_entries(t);
    lemma_table_wf(s);
    assert forall|j: int| 0 <= j < sel.len() implies #[trigger] wf_line(sel[j].raw) by {
        assert(sel.contains(sel[j]));
        lemma_unique_mem(t, sel[j]);
        let m = choose|m: int| 0 <= m < t.len() && t[m] == sel[j];
        assert(wf_line(t[m].raw));
    }
    lemma_render_round_trip(sel);
    assert(output_model(c, s) == chop(render_plain(sel)));
    assert forall|x: Seq<u8>|
        #[trigger] raws_of(sel).contains(x) == (occ_count(ls, false, x) == 1) by {
        if raws_of(sel).contains(x) {
            let j = choose|j: int| 0 <= j < raws_of(sel).len() && raws_of(sel)[j] == x;
            let e = sel[j];
            assert(e.raw == x);
            assert(sel.contains(e));
            lemma_unique_mem(t, e);
            let m = choose|m: int| 0 <= m < t.len() && t[m] == e;
            assert(e == entry_model(ls, false, dk[m]));
            assert(dk.contains(dk[m]));
            lemma_distinct_occ(ls, false, dk[m]);
            lemma_last_raw_self(ls, dk[m]);
            assert(x == dk[m]);
            assert(occ_count(ls, false, x) == 1);
        }
        if occ_count(ls, false, x) == 1 {
            lemma_distinct_occ(ls, false, x);
            assert(dk.contains(x));
            let m = choose|m: int| 0 <= m < dk.len() && dk[m] == x;
            let e = entry_model(ls, false, x);
            assert(table_model(ls, false)[m] == entry_model(ls, false, dk[m]));
            assert(t[m] == e);
            assert(t.contains(e));
            lemma_unique_mem(t, e);
            assert(sel.contains(e));
            let j = choose|j: int| 0 <= j < sel.len() && sel[j] == e;
            lemma_last_raw_self(ls, x);
            assert(raws_of(sel)[j] == x);
            assert(raws_of(sel).contains(x));
        }
    }
}

/// An input with no lines left after trimming produces no output at all,
/// whatever the flags say.
pub proof fn lemma_empty_input(c: Config, s: Seq<u8>)
    requires
        clean_lines_spec(s).len() == 0,
    ensures
        output_model(c, s) == Seq::<u8>::empty(),
{
    let ls = clean_lines_spec(s);
    assert(ls =~= Seq::<Seq<u8>>::empty());
    let t = table_model(ls, c.ignore_case);
    assert(distinct_keys(ls, c.ignore_case) == Seq::<Seq<u8>>::empty());
    assert(t =~= Seq::<EntryModel>::empty());
    assert(render_plain(t) == Seq::<u8>::empty());
    assert(crate::output::render_counted(t) == Seq::<u8>::empty());
    assert(repeated_entries(t) == Seq::<EntryModel>::empty());
    assert(unique_entries(t) == Seq::<EntryModel>::empty());
}

} // verus!
