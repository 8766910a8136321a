use vstd::prelude::*;

use crate::config::{flag_active, Config};
use crate::lines::{clean_lines_spec, split_clean_lines};
use crate::table::{table_model, EntryModel, FreqTable};

verus! {

/// The decimal digits of `n`, most significant first.
pub open spec fn dec_rep(n: nat) -> Seq<u8>
    decreases n,
{
    if n < 10 {
        seq![(48 + n) as u8]
    } else {
        dec_rep(n / 10).push((48 + n % 10) as u8)
    }
}

/// One plain output line: the raw text followed by a newline.
pub open spec fn plain_line(e: EntryModel) -> Seq<u8> {
    e.raw + seq![10u8]
}

/// One counted output line: the count, a single space, the raw text, and a
/// newline.
pub open spec fn counted_line(e: EntryModel) -> Seq<u8> {
    dec_rep(e.count) + seq![32u8] + e.raw + seq![10u8]
}

/// The plain rendering of a whole entry list, in table order.
pub open spec fn render_plain(t: Seq<EntryModel>) -> Seq<u8>
    decreases t.len(),
{
    if t.len() == 0 {
        Seq::<u8>::empty()
    } else {
        render_plain(t.drop_last()) + plain_line(t.last())
    }
}

/// The counted rendering of a whole entry list, in table order.
pub open spec fn render_counted(t: Seq<EntryModel>) -> Seq<u8>
    decreases t.len(),
{
    if t.len() == 0 {
        Seq::<u8>::empty()
    } else {
        render_counted(t.drop_last()) + counted_line(t.last())
    }
}

/// The entries whose key occurred more than once, in table order.
pub open spec fn repeated_entries(t: Seq<EntryModel>) -> Seq<EntryModel>
    decreases t.len(),
{
    if t.len() == 0 {
        Seq::<EntryModel>::empty()
    } else {
        let prev = repeated_entries(t.drop_last());
        if t.last().count > 1 {
            prev.push(t.last())
        } else {
            prev
        }
    }
}

/// The entries whose key occurred exactly once, in table order.
pub open spec fn unique_entries(t: Seq<EntryModel>) -> Seq<EntryModel>
    decreases t.len(),
{
    if t.len() == 0 {
        Seq::<EntryModel>::empty()
    } else {
        let prev = unique_entries(t.drop_last());
        if t.last().count == 1 {
            prev.push(t.last())
        } else {
            prev
        }
    }
}

/// Drops the final byte: each stage removes the newline that terminates its
/// last emitted line (and an empty rendering stays empty).
pub open spec fn chop(s: Seq<u8>) -> Seq<u8> {
    if s.len() == 0 {
        s
    } else {
        s.drop_last()
    }
}

/// The bytes the filter emits for a configuration and an input.  The stages
/// run in the fixed order default, count, repeated, unique, and each
/// applicable later stage replaces the earlier output, so the last
/// applicable stage wins; with some flag set but no output stage chosen,
/// nothing is emitted.
pub open spec fn output_model(c: Config, s: Seq<u8>) -> Seq<u8> {
    let t = table_model(clean_lines_spec(s), c.ignore_case);
    if c.unique {
        chop(render_plain(unique_entries(t)))
    } else if c.repeated {
        chop(render_plain(repeated_entries(t)))
    } else if c.count {
        chop(render_counted(t))
    } else if !flag_active(c) {
        chop(render_plain(t))
    } else {
        Seq::<u8>::empty()
    }
}

/// Empties the output buffer before a later stage rewrites it.
pub fn reset_buffer(buffer: &mut Vec<u8>)
    ensures
        final(buffer)@ == Seq::<u8>::empty(),
{
    if buffer.len() > 0 {
        buffer.clear()
    } else {
        proof {
            assert(old(buffer)@ =~= Seq::<u8>::empty());
        }
    }
}

/// Appends a byte sequence to the buffer.
fn push_bytes(buffer: &mut Vec<u8>, data: &Vec<u8>)
    ensures
        final(buffer)@ == old(buffer)@ + data@,
{
    let ghost b0 = buffer@;
    let mut i: usize = 0;
    proof {
        assert(b0 + data@.take(0) =~= b0);
    }
    while i < data.len()
        invariant
            i <= data@.len(),
            buffer@ == b0 + data@.take(i as int),
        decreases data@.len() - i,
    {
        buffer.push(data[i]);
        proof {
            assert((b0 + data@.take(i as int)).push(data@[i as int]) =~= b0 + data@.take(
                i as int + 1,
            ));
        }
        i += 1;
    }
    proof {
        assert(data@.take(data@.len() as int) =~= data@);
    }
}

/// Appends the decimal digits of `n` to the buffer.
fn push_dec(buffer: &mut Vec<u8>, n: u64)
    ensures
        final(buffer)@ == old(buffer)@ + dec_rep(n as nat),
    decreases n,
{
    if n < 10 {
        buffer.push(48 + n as u8);
        proof {
            assert(buffer@ =~= old(buffer)@ + dec_rep(n as nat));
        }
    } else {
        proof {
            assert(n / 10 < n) by (nonlinear_arith)
                requires
                    n >= 10,
            ;
        }
        push_dec(buffer, n / 10);
        let d: u8 = (n % 10) as u8;
        buffer.push(48 + d);
        proof {
            assert((48 + d) as nat == 48 + (n as nat) % 10);
            assert(buffer@ =~= old(buffer)@ + dec_rep(n as nat));
        }
    }
}

/// With no behaviour flag set, emits one line per distinct key, in
/// first-seen order, and removes the terminating newline; otherwise the
/// buffer is left untouched.
pub fn handle_default_operation(config: &Config, dictionary: &FreqTable, buffer: &mut Vec<u8>)
    ensures
        !flag_active(*config) ==> final(buffer)@ == chop(old(buffer)@ + render_plain(dictionary@)),
        flag_active(*config) ==> final(buffer)@ == old(buffer)@,
{
    if !config.get_flag_status() {
        let ghost dv = dictionary@;
        let ghost start = buffer@;
        let mut i: usize = 0;
        proof {
            assert(dv.take(0) =~= Seq::<EntryModel>::empty());
            assert(start + render_plain(dv.take(0)) =~= start);
            assert(dv.len() == dictionary.entries@.len());
        }
        while i < dictionary.entries.len()
            invariant
                i <= dictionary.entries@.len(),
                dv == dictionary@,
                dv.len() == dictionary.entries@.len(),
                buffer@ == start + render_plain(dv.take(i as int)),
            decreases dictionary.entries@.len() - i,
        {
            let ghost b0 = buffer@;
            let e = &dictionary.entries[i];
            proof {
                assert(dv[i as int] == dictionary.entries@[i as int]@);
                assert(dv.take(i as int + 1).drop_last() =~= dv.take(i as int));
                assert(dv.take(i as int + 1).last() == dv[i as int]);
            }
            push_bytes(buffer, &e.raw);
            buffer.push(10);
            proof {
                assert(buffer@ =~= b0 + plain_line(dv[i as int]));
                assert(render_plain(dv.take(i as int + 1)) == render_plain(dv.take(i as int))
                    + plain_line(dv[i as int]));
                assert(buffer@ =~= start + render_plain(dv.take(i as int + 1)));
            }
            i += 1;
        }
        proof {
            assert(dv.take(dv.len() as int) =~= dv);
        }
        let _ = buffer.pop();
        proof {
            assert(buffer@ =~= chop(old(buffer)@ + render_plain(dictionary@)));
        }
    }
}

/// With the count flag set, replaces the buffer with one counted line per
/// distinct key and removes the terminating newline; otherwise the buffer is
/// left untouched.
pub fn handle_count_operation(config: &Config, buffer: &mut Vec<u8>, dictionary: &FreqTable)
    ensures
        config.count ==> final(buffer)@ == chop(render_counted(dictionary@)),
        !config.count ==> final(buffer)@ == old(buffer)@,
{
    if config.count {
        reset_buffer(buffer);
        let ghost dv = dictionary@;
        let mut i: usize = 0;
        proof {
            assert(dv.take(0) =~= Seq::<EntryModel>::empty());
            assert(dv.len() == dictionary.entries@.len());
        }
        while i < dictionary.entries.len()
            invariant
                i <= dictionary.entries@.len(),
                dv == dictionary@,
                dv.len() == dictionary.entries@.len(),
                buffer@ == render_counted(dv.take(i as int)),
            decreases dictionary.entries@.len() - i,
        {
            let ghost b0 = buffer@;
            let e = &dictionary.entries[i];
            proof {
                assert(dv[i as int] == dictionary.entries@[i as int]@);
                assert(dv.take(i as int + 1).drop_last() =~= dv.take(i as int));
                assert(dv.take(i as int + 1).last() == dv[i as int]);
            }
            push_dec(buffer, e.count);
            buffer.push(32);
            push_bytes(buffer, &e.raw);
            buffer.push(10);
            proof {
                assert(buffer@ =~= b0 + counted_line(dv[i as int]));
                assert(render_counted(dv.take(i as int + 1)) == render_counted(dv.take(i as int))
                    + counted_line(dv[i as int]));
                assert(buffer@ =~= render_counted(dv.take(i as int + 1)));
            }
            i += 1;
        }
        proof {
            assert(dv.take(dv.len() as int) =~= dv);
        }
        let _ = buffer.pop();
        proof {
            assert(buffer@ =~= chop(render_counted(dictionary@)));
        }
    }
}

/// With the repeated flag set, replaces the buffer with one line per key
/// that occurred more than once and removes the terminating newline;
/// otherwise the buffer is left untouched.
pub fn handle_repeat_operation(config: &Config, buffer: &mut Vec<u8>, dictionary: &FreqTable)
    ensures
        config.repeated ==> final(buffer)@ == chop(render_plain(repeated_entries(dictionary@))),
        !config.repeated ==> final(buffer)@ == old(buffer)@,
{
    if config.repeated {
        reset_buffer(buffer);
        let ghost dv = dictionary@;
        let mut i: usize = 0;
        proof {
            assert(dv.take(0) =~= Seq::<EntryModel>::empty());
            assert(dv.len() == dictionary.entries@.len());
        }
        while i < dictionary.entries.len()
            invariant
                i <= dictionary.entries@.len(),
                dv == dictionary@,
                dv.len() == dictionary.entries@.len(),
                buffer@ == render_plain(repeated_entries(dv.take(i as int))),
            decreases dictionary.entries@.len() - i,
        {
            let ghost b0 = buffer@;
            let e = &dictionary.entries[i];
            proof {
                assert(dv[i as int] == dictionary.entries@[i as int]@);
                assert(dv.take(i as int + 1).drop_last() =~= dv.take(i as int));
                assert(dv.take(i as int + 1).last() == dv[i as int]);
            }
            if e.count > 1 {
                push_bytes(buffer, &e.raw);
                buffer.push(10);
                proof {
                    assert(buffer@ =~= b0 + plain_line(dv[i as int]));
                    assert(repeated_entries(dv.take(i as int + 1)) == repeated_entries(
                        dv.take(i as int),
                    ).push(dv[i as int]));
                    let re = repeated_entries(dv.take(i as int));
                    assert(re.push(dv[i as int]).drop_last() =~= re);
                    assert(re.push(dv[i as int]).last() == dv[i as int]);
                    assert(render_plain(re.push(dv[i as int])) == render_plain(re) + plain_line(
                        dv[i as int],
                    ));
                }
            } else {
                proof {
                    assert(repeated_entries(dv.take(i as int + 1)) == repeated_entries(
                        dv.take(i as int),
                    ));
                }
            }
            i += 1;
        }
        proof {
            assert(dv.take(dv.len() as int) =~= dv);
        }
        let _ = buffer.pop();
        proof {
            assert(buffer@ =~= chop(render_plain(repeated_entries(dictionary@))));
        }
    }
}

/// With the unique flag set, replaces the buffer with one line per key that
/// occurred exactly once and removes the terminating newline; otherwise the
/// buffer is left untouched.
pub fn handle_unique_operation(config: Config, buffer: &mut Vec<u8>, dictionary: FreqTable)
    ensures
        config.unique ==> final(buffer)@ == chop(render_plain(unique_entries(dictionary@))),
        !config.unique ==> final(buffer)@ == old(buffer)@,
{
    if config.unique {
        reset_buffer(buffer);
        let ghost dv = dictionary@;
        let mut i: usize = 0;
        proof {
            assert(dv.take(0) =~= Seq::<EntryModel>::empty());
            assert(dv.len() == dictionary.entries@.len());
        }
        while i < dictionary.entries.len()
            invariant
                i <= dictionary.entries@.len(),
                dv == dictionary@,
                dv.len() == dictionary.entries@.len(),
                buffer@ == render_plain(unique_entries(dv.take(i as int))),
            decreases dictionary.entries@.len() - i,
        {
            let ghost b0 = buffer@;
            let e = &dictionary.entries[i];
            proof {
                assert(dv[i as int] == dictionary.entries@[i as int]@);
                assert(dv.take(i as int + 1).drop_last() =~= dv.take(i as int));
                assert(dv.take(i as int + 1).last() == dv[i as int]);
            }
            if e.count == 1 {
                push_bytes(buffer, &e.raw);
                buffer.push(10);
                proof {
                    assert(buffer@ =~= b0 + plain_line(dv[i as int]));
                    assert(unique_entries(dv.take(i as int + 1)) == unique_entries(
                        dv.take(i as int),
                    ).push(dv[i as int]));
                    let ue = unique_entries(dv.take(i as int));
                    assert(ue.push(dv[i as int]).drop_last() =~= ue);
                    assert(ue.push(dv[i as int]).last() == dv[i as int]);
                    assert(render_plain(ue.push(dv[i as int])) == render_plain(ue) + plain_line(
                        dv[i as int],
                    ));
                }
            } else {
                proof {
                    assert(unique_entries(dv.take(i as int + 1)) == unique_entries(
                        dv.take(i as int),
                    ));
                }
            }
            i += 1;
        }
        proof {
            assert(dv.take(dv.len() as int) =~= dv);
        }
        let _ = buffer.pop();
        proof {
            assert(buffer@ =~= chop(render_plain(unique_entries(dictionary@))));
        }
    }
}

/// Runs the whole pipeline on an input held in memory: classify the lines,
/// build the frequency table, and render the output that the configuration
/// selects.
pub fn produce_output(config: Config, input: &Vec<u8>) -> (out: Vec<u8>)
    ensures
        out@ == output_model(config, input@),
{
    let lines = split_clean_lines(input);
    let dictionary = FreqTable::build_table(&lines, config.ignore_case);
    proof {
        assert(dictionary@ == table_model(clean_lines_spec(input@), config.ignore_case));
    }
    let mut buffer: Vec<u8> = Vec::new();
    handle_default_operation(&config, &dictionary, &mut buffer);
    handle_count_operation(&config, &mut buffer, &dictionary);
    handle_repeat_operation(&config, &mut buffer, &dictionary);
    proof {
        assert(Seq::<u8>::empty() + render_plain(dictionary@) =~= render_plain(dictionary@));
    }
    handle_unique_operation(config, &mut buffer, dictionary);
    buffer
}

} // verus!
