use vstd::prelude::*;

use crate::constant::{default_repeated_opt, make_default_repeated_opt, RepeatedOpt,
    RepeatedTypeOpt, SepKind};
use vstd::string::StrSliceExecFns;

verus! {

/// The parsed flag set describing one run of the filter.
///
/// `num` (skip leading fields), `skip_chars` (skip leading characters) and the
/// `all_repeated` separation value are recognised by the parser but are not
/// wired into key derivation or rendering: they only suppress the plain
/// deduplicated output, which keeps the lenient command-line surface intact
/// while those transforms remain a documented gap.
#[derive(Debug)]
pub struct Config {
    pub count: bool,
    pub repeated: bool,
    pub all_repeated: RepeatedTypeOpt,
    pub num: bool,
    pub ignore_case: bool,
    pub skip_chars: bool,
    pub unique: bool,
    pub input_file: Option<String>,
    pub output_file: Option<String>,
}

/// True when any behaviour flag is set; the plain deduplicated output is
/// produced only when this is false.
pub open spec fn flag_active(c: Config) -> bool {
    ||| c.count
    ||| c.num
    ||| c.ignore_case
    ||| c.repeated
    ||| c.skip_chars
    ||| c.unique
    ||| match c.all_repeated {
        RepeatedTypeOpt::Value(r) => r.condition,
    }
}

/// True when some argument token before position `k` equals `t`.
pub open spec fn tok_before(s: Seq<String>, k: int, t: Seq<char>) -> bool {
    exists|j: int| 0 <= j < k && s[j]@ == t
}

/// True when the token list is long enough to be scanned for flags and some
/// token equals `t`.
pub open spec fn tok_present(s: Seq<String>, t: Seq<char>) -> bool {
    s.len() >= 2 && tok_before(s, s.len() as int, t)
}

/// The "all repeated" option value that one `-D` value token selects;
/// an unrecognised value falls back to no separation.
pub open spec fn sep_value_of(t: Seq<char>) -> RepeatedTypeOpt {
    RepeatedTypeOpt::Value(
        RepeatedOpt {
            condition: true,
            value: if t == "prepend"@ {
                SepKind::SepPrepend
            } else if t == "separate"@ {
                SepKind::SepSeparate
            } else {
                SepKind::SepNone
            },
        },
    )
}

/// The "all repeated" option that a `-D` with no following value token
/// selects: the option is active, with no separation.
pub open spec fn sep_missing_value() -> RepeatedTypeOpt {
    RepeatedTypeOpt::Value(RepeatedOpt { condition: true, value: SepKind::SepNone })
}

/// The "all repeated" option after the first `k` argument tokens have been
/// scanned: the last `-D` wins, taking the token after it as its value, or
/// the missing-value default when it is the final token.
pub open spec fn sep_after(s: Seq<String>, k: int, init: RepeatedTypeOpt) -> RepeatedTypeOpt
    decreases k,
{
    if k <= 0 {
        init
    } else {
        let prev = sep_after(s, k - 1, init);
        if s[k - 1]@ == "-D"@ {
            if k < s.len() {
                sep_value_of(s[k]@)
            } else {
                sep_missing_value()
            }
        } else {
            prev
        }
    }
}

/// The "all repeated" option that a full argument list produces.
pub open spec fn sep_model(s: Seq<String>) -> RepeatedTypeOpt {
    if s.len() >= 2 {
        sep_after(s, s.len() as int, default_repeated_opt())
    } else {
        default_repeated_opt()
    }
}

/// True when the token at position `i` can denote a file path: it is not the
/// leading program name, not empty, and does not begin with a dash.
pub open spec fn tok_is_path(s: Seq<String>, i: int) -> bool {
    i != 0 && s[i]@.len() > 0 && s[i]@[0] != '-'
}

/// One scan step of the path capture: the effect that looking at position `i`
/// has on the (input path, output path, input-captured marker) state.  Only
/// the last two positions are considered; the first captured path is the
/// input, the second the output.
pub open spec fn spec_io_step(
    s: Seq<String>,
    i: int,
    st: (Option<String>, Option<String>, bool),
) -> (Option<String>, Option<String>, bool) {
    if i >= s.len() - 2 && tok_is_path(s, i) {
        if !st.2 {
            (Some(s[i]), st.1, true)
        } else {
            (st.0, Some(s[i]), true)
        }
    } else {
        st
    }
}

/// The path-capture state after the first `k` argument tokens were scanned.
pub open spec fn files_after(
    s: Seq<String>,
    k: int,
    st: (Option<String>, Option<String>, bool),
) -> (Option<String>, Option<String>, bool)
    decreases k,
{
    if k <= 0 {
        st
    } else {
        spec_io_step(s, k - 1, files_after(s, k - 1, st))
    }
}

/// Whether the special case for exactly one argument token applies: that
/// token becomes the input path unless it begins with a dash.
pub open spec fn lone_tok_is_input(s: Seq<String>) -> bool {
    s.len() == 2 && !(s[1]@.len() > 0 && s[1]@[0] == '-')
}

/// The input path that a full argument list selects.
pub open spec fn input_file_model(s: Seq<String>) -> Option<String> {
    if s.len() == 2 {
        if lone_tok_is_input(s) {
            Some(s[1])
        } else {
            None
        }
    } else if s.len() >= 3 {
        if tok_is_path(s, s.len() - 2) {
            Some(s[s.len() - 2])
        } else if tok_is_path(s, s.len() - 1) {
            Some(s[s.len() - 1])
        } else {
            None
        }
    } else {
        None
    }
}

/// The output path that a full argument list selects: only present when the
/// last two tokens both denote paths.
pub open spec fn output_file_model(s: Seq<String>) -> Option<String> {
    if s.len() >= 3 && tok_is_path(s, s.len() - 2) && tok_is_path(s, s.len() - 1) {
        Some(s[s.len() - 1])
    } else {
        None
    }
}

/// Compares an argument token with a literal.
fn string_eq_lit(a: &String, lit: &str) -> (r: bool)
    ensures
        r == (a@ == lit@),
{
    let l: String = lit.to_owned();
    *a == l
}

/// True when the token begins with a dash.
fn starts_with_dash(s: &String) -> (r: bool)
    ensures
        r == (s@.len() > 0 && s@[0] == '-'),
{
    if s.as_str().is_empty() {
        false
    } else {
        s.as_str().get_char(0) == '-'
    }
}

/// Sets each simple flag field that the token names, leaving the rest of
/// the configuration alone.
fn scan_flag_token(arg: &String, cfg: &mut Config)
    ensures
        final(cfg).count == (old(cfg).count || arg@ == "-c"@),
        final(cfg).repeated == (old(cfg).repeated || arg@ == "-d"@),
        final(cfg).num == (old(cfg).num || arg@ == "-f"@),
        final(cfg).ignore_case == (old(cfg).ignore_case || arg@ == "-i"@),
        final(cfg).skip_chars == (old(cfg).skip_chars || arg@ == "-s"@),
        final(cfg).unique == (old(cfg).unique || arg@ == "-u"@),
        final(cfg).all_repeated == old(cfg).all_repeated,
        final(cfg).input_file == old(cfg).input_file,
        final(cfg).output_file == old(cfg).output_file,
{
    if string_eq_lit(arg, "-c") {
        cfg.count = true;
    }
    if string_eq_lit(arg, "-d") {
        cfg.repeated = true;
    }
    if string_eq_lit(arg, "-f") {
        cfg.num = true;
    }
    if string_eq_lit(arg, "-i") {
        cfg.ignore_case = true;
    }
    if string_eq_lit(arg, "-s") {
        cfg.skip_chars = true;
    }
    if string_eq_lit(arg, "-u") {
        cfg.unique = true;
    }
}

/// Applies the token at `index` when it is `-D`: the next token, if any, is
/// its value, and a missing value activates the option with no separation.
fn scan_sep_token(args: &Vec<String>, index: usize, cfg: &mut Config)
    requires
        index < args@.len(),
    ensures
        final(cfg).all_repeated == (if args@[index as int]@ == "-D"@ {
            if index as int + 1 < args@.len() {
                sep_value_of(args@[index as int + 1]@)
            } else {
                sep_missing_value()
            }
        } else {
            old(cfg).all_repeated
        }),
        final(cfg).count == old(cfg).count,
        final(cfg).repeated == old(cfg).repeated,
        final(cfg).num == old(cfg).num,
        final(cfg).ignore_case == old(cfg).ignore_case,
        final(cfg).skip_chars == old(cfg).skip_chars,
        final(cfg).unique == old(cfg).unique,
        final(cfg).input_file == old(cfg).input_file,
        final(cfg).output_file == old(cfg).output_file,
{
    let arg = &args[index];
    let n = args.len();
    if string_eq_lit(arg, "-D") {
        if index + 1 < n {
            let option = &args[index + 1];
            let sep = if string_eq_lit(option, "prepend") {
                SepKind::SepPrepend
            } else if string_eq_lit(option, "separate") {
                SepKind::SepSeparate
            } else {
                SepKind::SepNone
            };
            cfg.all_repeated = RepeatedTypeOpt::Value(RepeatedOpt { condition: true, value: sep });
        } else {
            cfg.all_repeated = RepeatedTypeOpt::Value(
                RepeatedOpt { condition: true, value: SepKind::SepNone },
            );
        }
    }
}

/// Positions before the last two (and position zero) never capture a path.
proof fn lemma_files_after_no_effect(
    s: Seq<String>,
    k: int,
    st: (Option<String>, Option<String>, bool),
)
    requires
        0 <= k,
        k <= s.len() - 2 || k <= 1,
    ensures
        files_after(s, k, st) == st,
    decreases k,
{
    if k > 0 {
        lemma_files_after_no_effect(s, k - 1, st);
    }
}

/// Closed form of the path capture over a whole argument list.
proof fn lemma_files_after_closed(s: Seq<String>, st: (Option<String>, Option<String>, bool))
    requires
        s.len() >= 2,
        !st.2,
    ensures
        ({
            let i1 = s.len() - 2;
            let i2 = s.len() - 1;
            files_after(s, s.len() as int, st) == (if tok_is_path(s, i1) && tok_is_path(s, i2) {
                (Some(s[i1]), Some(s[i2]), true)
            } else if tok_is_path(s, i1) {
                (Some(s[i1]), st.1, true)
            } else if tok_is_path(s, i2) {
                (Some(s[i2]), st.1, true)
            } else {
                st
            })
        }),
{
    let i1 = s.len() - 2;
    let i2 = s.len() - 1;
    lemma_files_after_no_effect(s, i1, st);
    assert(files_after(s, i1 + 1, st) == spec_io_step(s, i1, st));
    assert(files_after(s, s.len() as int, st) == spec_io_step(s, i2, files_after(s, i2, st)));
}

/// A token seen at position `k` extends the scanned prefix by one.
proof fn lemma_tok_before_step(s: Seq<String>, k: int, t: Seq<char>)
    requires
        0 <= k < s.len(),
    ensures
        tok_before(s, k + 1, t) == (tok_before(s, k, t) || s[k]@ == t),
{
    if tok_before(s, k + 1, t) {
        let j = choose|j: int| 0 <= j < k + 1 && s[j]@ == t;
        if j < k {
            assert(tok_before(s, k, t));
        }
    }
    if tok_before(s, k, t) {
        let j = choose|j: int| 0 <= j < k && s[j]@ == t;
        assert(0 <= j < k + 1 && s[j]@ == t);
    }
    if s[k]@ == t {
        assert(0 <= k < k + 1 && s[k]@ == t);
    }
}

impl Config {
    /// True when any behaviour flag is set.
    pub fn get_flag_status(&self) -> (r: bool)
        ensures
            r == flag_active(*self),
    {
        let all_repeated_flag_status = match &self.all_repeated {
            RepeatedTypeOpt::Value(repeated_opt) => repeated_opt.condition,
        };
        self.count || self.num || self.ignore_case || self.repeated || self.skip_chars
            || self.unique || all_repeated_flag_status
    }

    /// Parses a full argument list (program name first) into a `Config`.
    /// Unrecognised flag tokens are silently ignored.
    pub fn build_config(args: Vec<String>) -> (cfg: Config)
        ensures
            cfg.count == tok_present(args@, "-c"@),
            cfg.repeated == tok_present(args@, "-d"@),
            cfg.num == tok_present(args@, "-f"@),
            cfg.ignore_case == tok_present(args@, "-i"@),
            cfg.skip_chars == tok_present(args@, "-s"@),
            cfg.unique == tok_present(args@, "-u"@),
            cfg.all_repeated == sep_model(args@),
            cfg.input_file == input_file_model(args@),
            cfg.output_file == output_file_model(args@),
    {
        let mut cfg: Config = Config {
            count: false,
            repeated: false,
            all_repeated: make_default_repeated_opt(),
            num: false,
            ignore_case: false,
            skip_chars: false,
            unique: false,
            input_file: None,
            output_file: None,
        };
        if args.len() == 0 {
            return cfg;
        }
        Config::parse_config_from_args(&args, &mut cfg);
        proof {
            if args@.len() >= 2 {
                let pre = if lone_tok_is_input(args@) {
                    Some(args@[1])
                } else {
                    None
                };
                lemma_files_after_closed(args@, (pre, None, false));
            }
        }
        cfg
    }

    /// Captures the input and output paths from the last two token positions,
    /// in the order they are seen.
    pub fn parse_config_io_result(
        index: usize,
        args: &Vec<String>,
        is_input_file: &mut bool,
        cfg: &mut Config,
    )
        requires
            args@.len() >= 2,
            index < args@.len(),
        ensures
            final(cfg).count == old(cfg).count,
            final(cfg).repeated == old(cfg).repeated,
            final(cfg).all_repeated == old(cfg).all_repeated,
            final(cfg).num == old(cfg).num,
            final(cfg).ignore_case == old(cfg).ignore_case,
            final(cfg).skip_chars == old(cfg).skip_chars,
            final(cfg).unique == old(cfg).unique,
            ((final(cfg).input_file, final(cfg).output_file, *final(is_input_file))) == spec_io_step(
                args@,
                index as int,
                ((old(cfg).input_file, old(cfg).output_file, *old(is_input_file))),
            ),
    {
        if index >= args.len() - 2 && index != 0 {
            let file_path = &args[index];
            if !file_path.as_str().is_empty() {
                let dash = starts_with_dash(file_path);
                if !dash && !*is_input_file {
                    cfg.input_file = Some(file_path.clone());
                    *is_input_file = !*is_input_file;
                } else if !dash && *is_input_file {
                    cfg.output_file = Some(file_path.clone());
                }
            }
        }
    }

    /// Scans every token: flag tokens set their fields, the last `-D` sets
    /// the separation option (defaulting to active with no separation on a
    /// missing or unrecognised value), and the last two positions may be
    /// captured as input and output paths.
    pub fn parse_config_from_args(args: &Vec<String>, cfg: &mut Config)
        ensures
            final(cfg).count == (old(cfg).count || tok_present(args@, "-c"@)),
            final(cfg).repeated == (old(cfg).repeated || tok_present(args@, "-d"@)),
            final(cfg).num == (old(cfg).num || tok_present(args@, "-f"@)),
            final(cfg).ignore_case == (old(cfg).ignore_case || tok_present(args@, "-i"@)),
            final(cfg).skip_chars == (old(cfg).skip_chars || tok_present(args@, "-s"@)),
            final(cfg).unique == (old(cfg).unique || tok_present(args@, "-u"@)),
            final(cfg).all_repeated == (if args@.len() >= 2 {
                sep_after(args@, args@.len() as int, old(cfg).all_repeated)
            } else {
                old(cfg).all_repeated
            }),
            ({
                let st0 = (
                    if lone_tok_is_input(args@) {
                        Some(args@[1])
                    } else {
                        old(cfg).input_file
                    },
                    old(cfg).output_file,
                    false,
                );
                if args@.len() >= 2 {
                    final(cfg).input_file == files_after(args@, args@.len() as int, st0).0
                        && final(cfg).output_file == files_after(args@, args@.len() as int, st0).1
                } else {
                    final(cfg).input_file == old(cfg).input_file && final(cfg).output_file == old(
                        cfg,
                    ).output_file
                }
            }),
    {
        let mut is_input_file: bool = false;
        if args.len() < 2 {
            return ;
        }
        if args.len() == 2 {
            let file_path = &args[1];
            if !starts_with_dash(file_path) {
                cfg.input_file = Some(file_path.clone());
            }
        }
        let ghost st0 = (
            if lone_tok_is_input(args@) {
                Some(args@[1])
            } else {
                old(cfg).input_file
            },
            old(cfg).output_file,
            false,
        );
        let mut index: usize = 0;
        while index < args.len()
            invariant
                args@.len() >= 2,
                index <= args@.len(),
                cfg.count == (old(cfg).count || tok_before(args@, index as int, "-c"@)),
                cfg.repeated == (old(cfg).repeated || tok_before(args@, index as int, "-d"@)),
                cfg.num == (old(cfg).num || tok_before(args@, index as int, "-f"@)),
                cfg.ignore_case == (old(cfg).ignore_case || tok_before(args@, index as int, "-i"@)),
                cfg.skip_chars == (old(cfg).skip_chars || tok_before(args@, index as int, "-s"@)),
                cfg.unique == (old(cfg).unique || tok_before(args@, index as int, "-u"@)),
                cfg.all_repeated == sep_after(args@, index as int, old(cfg).all_repeated),
                ((cfg.input_file, cfg.output_file, is_input_file)) == files_after(
                    args@,
                    index as int,
                    st0,
                ),
            decreases args@.len() - index,
        {
            Config::parse_config_io_result(index, args, &mut is_input_file, cfg);
            let arg = &args[index];
            scan_flag_token(arg, cfg);
            scan_sep_token(args, index, cfg);
            proof {
                lemma_tok_before_step(args@, index as int, "-c"@);
                lemma_tok_before_step(args@, index as int, "-d"@);
                lemma_tok_before_step(args@, index as int, "-f"@);
                lemma_tok_before_step(args@, index as int, "-i"@);
                lemma_tok_before_step(args@, index as int, "-s"@);
                lemma_tok_before_step(args@, index as int, "-u"@);
                assert(sep_after(args@, index as int + 1, old(cfg).all_repeated) == (if args@[index as int]@
                    == "-D"@ {
                    if index as int + 1 < args@.len() {
                        sep_value_of(args@[index as int + 1]@)
                    } else {
                        sep_missing_value()
                    }
                } else {
                    sep_after(args@, index as int, old(cfg).all_repeated)
                }));
                assert(files_after(args@, index as int + 1, st0) == spec_io_step(
                    args@,
                    index as int,
                    files_after(args@, index as int, st0),
                ));
            }
            index += 1;
        }
    }
}

} // verus!
