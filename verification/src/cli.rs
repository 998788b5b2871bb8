//! A small command-line option parser: options are declared with a name and the
//! kind of value they take, then read from the program's argument list.

use vstd::prelude::*;
use crate::lines::texts;
use crate::number::{is_float_literal, is_float_text, parse_i64, parse_i64_chars};
use crate::text::{chars_of, same_chars, text_eq};

verus! {

/// The kind of value an option takes.
#[derive(Debug, Clone, Copy, PartialEq, Eq, Structural)]
pub enum OptTyp {
    /// An integer (`i64`) in the next argument.
    Num,
    /// A floating-point number in the next argument.
    FNum,
    /// The next argument, as it is.
    Str,
    /// No value: the option's presence is all.
    NoArg,
}

/// The value an option got from the argument list. A floating-point value is
/// kept as its text, which is known to read as an `f64`.
#[derive(PartialEq, Debug, Clone)]
pub enum OptVal {
    Num(i64),
    FNum(String),
    Str(String),
    /// The option was given and takes no value.
    Empty,
    /// The next argument could not be read as the kind of value the option takes.
    Unmatch,
}

/// The value an option got, as plain text.
pub enum OptValue {
    Num(i64),
    FNum(Seq<char>),
    Str(Seq<char>),
    Empty,
    Unmatch,
}

impl View for OptVal {
    type V = OptValue;

    open spec fn view(&self) -> OptValue {
        match self {
            OptVal::Num(n) => OptValue::Num(*n),
            OptVal::FNum(s) => OptValue::FNum(s@),
            OptVal::Str(s) => OptValue::Str(s@),
            OptVal::Empty => OptValue::Empty,
            OptVal::Unmatch => OptValue::Unmatch,
        }
    }
}

/// A declared option, as plain values.
pub struct OptModel {
    pub typ: OptTyp,
    pub value: Option<OptValue>,
    pub name: Seq<char>,
    pub descr: Option<Seq<char>>,
}

/// A declared option and the value it got.
pub struct CliOpt {
    t: OptTyp,
    v: Option<OptVal>,
    nme: String,
    descr: Option<String>,
}

impl View for CliOpt {
    type V = OptModel;

    closed spec fn view(&self) -> OptModel {
        OptModel {
            typ: self.t,
            value: match self.v {
                Some(v) => Some(v@),
                None => None,
            },
            name: self.nme@,
            descr: match self.descr {
                Some(d) => Some(d@),
                None => None,
            },
        }
    }
}

/// The state of a parser, as plain values.
pub struct CliModel {
    /// The arguments that are not options nor option values, in order.
    pub args: Seq<Seq<char>>,
    /// The declared options, in the order of declaration.
    pub opts: Seq<OptModel>,
    /// The description of the program.
    pub descr: Option<Seq<char>>,
    /// Whether the argument list is still to be read.
    pub unprocessed: bool,
}

/// A command-line parser.
pub struct CLI {
    args: Vec<String>,
    opts: Vec<CliOpt>,
    descr: Option<String>,
    unprocessed: bool,
}

/// The models of a sequence of options.
pub open spec fn opt_models(v: Seq<CliOpt>) -> Seq<OptModel> {
    v.map_values(|o: CliOpt| o@)
}

impl View for CLI {
    type V = CliModel;

    closed spec fn view(&self) -> CliModel {
        CliModel {
            args: texts(self.args@),
            opts: opt_models(self.opts@),
            descr: match self.descr {
                Some(d) => Some(d@),
                None => None,
            },
            unprocessed: self.unprocessed,
        }
    }
}

/// The value an option of kind `typ` (which takes one) gets from the argument `val`.
pub open spec fn value_for(typ: OptTyp, val: Seq<char>) -> OptValue {
    match typ {
        OptTyp::Num => match parse_i64(val) {
            Some(n) => OptValue::Num(n),
            None => OptValue::Unmatch,
        },
        OptTyp::FNum => if is_float_literal(val) {
            OptValue::FNum(val)
        } else {
            OptValue::Unmatch
        },
        OptTyp::Str => OptValue::Str(val),
        OptTyp::NoArg => OptValue::Empty,
    }
}

/// `o` with the value `v`.
pub open spec fn with_value(o: OptModel, v: OptValue) -> OptModel {
    OptModel { value: Some(v), ..o }
}

/// The option token `-flag` met the options from index `j` on, with `rest` the
/// arguments after it: each option named `flag` is set in turn, and each that
/// takes a value takes the next remaining argument, if there is one. Gives the
/// options and the arguments left.
pub open spec fn apply_flag(
    opts: Seq<OptModel>,
    j: nat,
    flag: Seq<char>,
    rest: Seq<Seq<char>>,
) -> (Seq<OptModel>, Seq<Seq<char>>)
    decreases opts.len() - j,
{
    if j >= opts.len() {
        (opts, rest)
    } else if opts[j as int].name != flag {
        apply_flag(opts, j + 1, flag, rest)
    } else if opts[j as int].typ == OptTyp::NoArg {
        apply_flag(opts.update(j as int, with_value(opts[j as int], OptValue::Empty)), j + 1, flag, rest)
    } else if rest.len() == 0 {
        apply_flag(opts, j + 1, flag, rest)
    } else {
        apply_flag(
            opts.update(j as int, with_value(opts[j as int], value_for(opts[j as int].typ, rest[0]))),
            j + 1,
            flag,
            rest.drop_first(),
        )
    }
}

/// The arguments left by `apply_flag` are a part of those given to it.
pub proof fn lemma_apply_flag_rest(opts: Seq<OptModel>, j: nat, flag: Seq<char>, rest: Seq<Seq<char>>)
    ensures
        apply_flag(opts, j, flag, rest).1.len() <= rest.len(),
        apply_flag(opts, j, flag, rest).0.len() == opts.len(),
    decreases opts.len() - j,
{
    if j < opts.len() {
        if opts[j as int].name != flag {
            lemma_apply_flag_rest(opts, j + 1, flag, rest);
        } else if opts[j as int].typ == OptTyp::NoArg {
            lemma_apply_flag_rest(opts.update(j as int, with_value(opts[j as int], OptValue::Empty)), j + 1, flag, rest);
        } else if rest.len() == 0 {
            lemma_apply_flag_rest(opts, j + 1, flag, rest);
        } else {
            lemma_apply_flag_rest(
                opts.update(j as int, with_value(opts[j as int], value_for(opts[j as int].typ, rest[0]))),
                j + 1,
                flag,
                rest.drop_first(),
            );
        }
    }
}

/// An argument that starts with `-` names an option.
pub open spec fn is_option_token(t: Seq<char>) -> bool {
    t.len() > 0 && t[0] == '-'
}

/// Reads `tokens` in order: option tokens set options (and take their values),
/// the other tokens are added to `args`. Gives the options and the arguments.
pub open spec fn parse_tokens(
    opts: Seq<OptModel>,
    tokens: Seq<Seq<char>>,
    args: Seq<Seq<char>>,
) -> (Seq<OptModel>, Seq<Seq<char>>)
    decreases tokens.len(),
{
    if tokens.len() == 0 {
        (opts, args)
    } else if is_option_token(tokens[0]) {
        let r = apply_flag(opts, 0, tokens[0].drop_first(), tokens.drop_first());
        proof {
            lemma_apply_flag_rest(opts, 0, tokens[0].drop_first(), tokens.drop_first());
        }
        parse_tokens(r.0, r.1, args)
    } else {
        parse_tokens(opts, tokens.drop_first(), args.push(tokens[0]))
    }
}

/// The parser after reading the argument list `argv`, whose first entry (the
/// program) is skipped. The list is read only once.
pub open spec fn parsed(m: CliModel, argv: Seq<Seq<char>>) -> CliModel {
    if m.unprocessed {
        let tokens = if argv.len() > 0 {
            argv.drop_first()
        } else {
            argv
        };
        let r = parse_tokens(m.opts, tokens, m.args);
        CliModel { args: r.1, opts: r.0, descr: m.descr, unprocessed: false }
    } else {
        m
    }
}

/// The value of the first option named `name`, if there is such an option and it
/// has a value.
pub open spec fn lookup(opts: Seq<OptModel>, name: Seq<char>) -> Option<OptValue>
    decreases opts.len(),
{
    if opts.len() == 0 {
        None
    } else if opts[0].name == name {
        opts[0].value
    } else {
        lookup(opts.drop_first(), name)
    }
}

/// The description line of an option: a newline, its name, then a tab and its
/// description if it has one.
pub open spec fn opt_line(o: OptModel) -> Seq<char> {
    let tail = match o.descr {
        Some(d) => seq!['\t'] + d,
        None => Seq::empty(),
    };
    seq!['\n'] + o.name + tail
}

/// The description lines of options, in order.
pub open spec fn opt_lines(opts: Seq<OptModel>) -> Seq<char>
    decreases opts.len(),
{
    if opts.len() == 0 {
        Seq::empty()
    } else {
        opt_lines(opts.drop_last()) + opt_line(opts.last())
    }
}

/// The help text: the program's description followed by the options' lines.
pub open spec fn help_text(m: CliModel) -> Seq<char> {
    let head = match m.descr {
        Some(d) => d,
        None => Seq::empty(),
    };
    head + opt_lines(m.opts)
}

/// The value an option of kind `typ` (which takes one) gets from `val`.
fn value_of(typ: OptTyp, val: &String) -> (r: OptVal)
    requires
        typ != OptTyp::NoArg,
    ensures
        r@ == value_for(typ, val@),
{
    match typ {
        OptTyp::Num => match parse_i64_chars(&chars_of(val.as_str())) {
            Some(n) => OptVal::Num(n),
            None => OptVal::Unmatch,
        },
        OptTyp::FNum => if is_float_text(val.as_str()) {
            OptVal::FNum(val.clone())
        } else {
            OptVal::Unmatch
        },
        _ => OptVal::Str(val.clone()),
    }
}

impl CLI {
    /// A parser with no option, no description and no argument read yet.
    pub fn new() -> (r: Self)
        ensures
            r@ == (CliModel {
                args: Seq::empty(),
                opts: Seq::empty(),
                descr: None,
                unprocessed: true,
            }),
    {
        let r = CLI { args: Vec::new(), opts: Vec::new(), descr: None, unprocessed: true };
        assert(r@.args =~= Seq::<Seq<char>>::empty());
        assert(r@.opts =~= Seq::<OptModel>::empty());
        r
    }

    /// Declares an option named `name` that takes a value of kind `t`.
    pub fn opt(&mut self, name: &str, t: OptTyp) -> (r: &mut Self)
        ensures
            (*r)@ == (CliModel {
                opts: old(self)@.opts.push(OptModel { typ: t, value: None, name: name@, descr: None }),
                ..old(self)@
            }),
            *final(self) == *final(r),
    {
        let o = CliOpt { t, v: None, nme: name.to_owned(), descr: None };
        proof {
            assert(opt_models(self.opts@.push(o)) =~= opt_models(self.opts@).push(o@));
        }
        self.opts.push(o);
        self
    }

    /// Describes the option declared last, or the program if there is none yet.
    pub fn description(&mut self, descr: &str) -> (r: &mut Self)
        ensures
            (*r)@ == if old(self)@.opts.len() == 0 {
                CliModel { descr: Some(descr@), ..old(self)@ }
            } else {
                CliModel {
                    opts: old(self)@.opts.update(
                        old(self)@.opts.len() - 1,
                        OptModel { descr: Some(descr@), ..old(self)@.opts.last() },
                    ),
                    ..old(self)@
                }
            },
            *final(self) == *final(r),
    {
        if self.opts.len() == 0 {
            self.descr = Some(descr.to_owned());
        } else {
            let indx = self.opts.len() - 1;
            let ghost before = self.opts@;
            self.opts[indx].descr = Some(descr.to_owned());
            proof {
                assert(opt_models(self.opts@) =~= opt_models(before).update(
                    indx as int,
                    OptModel { descr: Some(descr@), ..opt_models(before).last() },
                ));
            }
        }
        self
    }

    /// The help text: the program's description, then for each option a line
    /// with its name and its description; `None` when that text is empty.
    pub fn get_description(&self) -> (r: Option<String>)
        ensures
            match r {
                Some(s) => s@ == help_text(self@) && s@.len() > 0,
                None => help_text(self@).len() == 0,
            },
    {
        let mut descr = String::new();
        match &self.descr {
            Some(d) => descr.append(d.as_str()),
            None => {},
        }
        let ghost head = descr@;
        let mut i: usize = 0;
        assert(opt_models(self.opts@).take(0) =~= Seq::<OptModel>::empty());
        while i < self.opts.len()
            invariant
                i <= self.opts@.len(),
                head == match self@.descr {
                    Some(d) => d,
                    None => Seq::<char>::empty(),
                },
                descr@ == head + opt_lines(opt_models(self.opts@).take(i as int)),
            decreases self.opts@.len() - i,
        {
            let opt = &self.opts[i];
            let ghost before = descr@;
            crate::number::push_char(&mut descr, '\n');
            descr.append(opt.nme.as_str());
            match &opt.descr {
                Some(d) => {
                    crate::number::push_char(&mut descr, '\t');
                    descr.append(d.as_str());
                },
                None => {},
            }
            proof {
                let ms = opt_models(self.opts@);
                assert(ms.take(i + 1).drop_last() =~= ms.take(i as int));
                assert(ms.take(i + 1).last() == opt@);
                assert(descr@ =~= before + opt_line(opt@));
            }
            i = i + 1;
        }
        assert(opt_models(self.opts@).take(i as int) =~= opt_models(self.opts@));
        if descr.as_str().is_empty() {
            None
        } else {
            Some(descr)
        }
    }

    /// The value of the first option named `name`: `None` when there is no such
    /// option or the argument list did not give it one.
    pub fn get_opt(&self, name: &str) -> (r: Option<&OptVal>)
        ensures
            match r {
                Some(v) => lookup(self@.opts, name@) == Some(v@),
                None => lookup(self@.opts, name@) is None,
            },
    {
        let mut i: usize = 0;
        let ghost ms = opt_models(self.opts@);
        assert(ms.skip(0) =~= ms);
        while i < self.opts.len()
            invariant
                i <= self.opts@.len(),
                ms == opt_models(self.opts@),
                lookup(ms, name@) == lookup(ms.skip(i as int), name@),
            decreases self.opts@.len() - i,
        {
            assert(ms.skip(i as int).drop_first() =~= ms.skip(i + 1));
            assert(ms.skip(i as int)[0] == self.opts@[i as int]@);
            if text_eq(self.opts[i].nme.as_str(), name) {
                return self.opts[i].v.as_ref();
            }
            i = i + 1;
        }
        None
    }

    /// The arguments read that are neither options nor option values.
    pub fn args(&self) -> (r: &Vec<String>)
        ensures
            texts(r@) == self@.args,
    {
        &self.args
    }

    /// Reads the argument list `argv` (the program first, as `std::env::args`
    /// gives it), unless it was read already. An argument that starts with `-`
    /// sets every option with the name that follows the `-`, and such an option
    /// that takes a value takes the next argument; an integer or floating-point
    /// option whose argument cannot be read so gets `Unmatch`. Other arguments
    /// are kept, in order. Unknown options are ignored.
    pub fn parse_from(&mut self, argv: &Vec<String>)
        ensures
            final(self)@ == parsed(old(self)@, texts(argv@)),
    {
        if !self.unprocessed {
            return ;
        }
        let ghost t = texts(argv@);
        let ghost tokens = if t.len() > 0 {
            t.drop_first()
        } else {
            t
        };
        let ghost goal = parse_tokens(opt_models(self.opts@), tokens, texts(self.args@));
        let n = argv.len();
        let mut i: usize = if n > 0 {
            1
        } else {
            0
        };
        assert(t.skip(i as int) =~= tokens);
        let ghost d0 = self.descr;
        while i < n
            invariant
                n == argv@.len(),
                i <= n,
                t == texts(argv@),
                self.unprocessed,
                self.descr == d0,
                goal == parse_tokens(opt_models(self.opts@), t.skip(i as int), texts(self.args@)),
            decreases n - i,
        {
            let arg = &argv[i];
            let ghost toks = t.skip(i as int);
            assert(toks[0] == arg@);
            assert(toks.drop_first() =~= t.skip(i + 1));
            i = i + 1;
            let chars = chars_of(arg.as_str());
            if chars.len() > 0 && chars[0] == '-' {
                let mut flag: Vec<char> = Vec::new();
                let mut k: usize = 1;
                while k < chars.len()
                    invariant
                        1 <= k <= chars@.len(),
                        flag@ =~= chars@.subrange(1, k as int),
                    decreases chars@.len() - k,
                {
                    flag.push(chars[k]);
                    k = k + 1;
                }
                assert(flag@ =~= arg@.drop_first());
                let ghost o0 = opt_models(self.opts@);
                let ghost start = apply_flag(o0, 0, flag@, t.skip(i as int));
                let ghost i0 = i;
                let ghost a0 = self.args@;
                let mut j: usize = 0;
                while j < self.opts.len()
                    invariant
                        n == argv@.len(),
                        i0 <= i <= n,
                        t == texts(argv@),
                        self.unprocessed,
                        self.descr == d0,
                        self.args@ == a0,
                        j <= self.opts@.len(),
                        start == apply_flag(opt_models(self.opts@), j as nat, flag@, t.skip(i as int)),
                    decreases self.opts@.len() - j,
                {
                    let ghost os = opt_models(self.opts@);
                    let same = same_chars(&chars_of(self.opts[j].nme.as_str()), &flag);
                    assert(os[j as int] == self.opts@[j as int]@);
                    if same {
                        match self.opts[j].t {
                            OptTyp::NoArg => {
                                self.opts[j].v = Some(OptVal::Empty);
                                assert(opt_models(self.opts@) =~= os.update(
                                    j as int,
                                    with_value(os[j as int], OptValue::Empty),
                                ));
                            },
                            typ => {
                                if i < n {
                                    let val = value_of(typ, &argv[i]);
                                    assert(t.skip(i as int)[0] == argv@[i as int]@);
                                    assert(t.skip(i as int).drop_first() =~= t.skip(i + 1));
                                    self.opts[j].v = Some(val);
                                    assert(opt_models(self.opts@) =~= os.update(
                                        j as int,
                                        with_value(os[j as int], value_for(typ, argv@[i as int]@)),
                                    ));
                                    i = i + 1;
                                } else {
                                    assert(t.skip(i as int).len() == 0);
                                }
                            },
                        }
                    }
                    j = j + 1;
                }
                assert(start == (opt_models(self.opts@), t.skip(i as int)));
            } else {
                proof {
                    assert(texts(self.args@.push(*arg)) =~= texts(self.args@).push(arg@));
                }
                self.args.push(arg.clone());
            }
        }
        assert(t.skip(n as int) =~= Seq::<Seq<char>>::empty());
        self.unprocessed = false;
    }
}

/// Arguments that do not start with `-` (a path such as `/var/log/syslog`
/// included) are kept as they are, in order, and leave the options unchanged.
pub proof fn lemma_parse_plain_arguments(
    opts: Seq<OptModel>,
    tokens: Seq<Seq<char>>,
    args: Seq<Seq<char>>,
)
    requires
        forall|i: int| 0 <= i < tokens.len() ==> (#[trigger] tokens[i]).len() == 0 || tokens[i][0] != '-',
    ensures
        parse_tokens(opts, tokens, args) == (opts, args + tokens),
    decreases tokens.len(),
{
    if tokens.len() == 0 {
        assert(args + tokens =~= args);
    } else {
        assert(!is_option_token(tokens[0]));
        assert forall|i: int| 0 <= i < tokens.drop_first().len() implies (#[trigger] tokens.drop_first()[i]).len() == 0
            || tokens.drop_first()[i][0] != '-' by {
            assert(tokens.drop_first()[i] == tokens[i + 1]);
        }
        lemma_parse_plain_arguments(opts, tokens.drop_first(), args.push(tokens[0]));
        assert(args.push(tokens[0]) + tokens.drop_first() =~= args + tokens);
    }
}

/// Reading the argument list a second time changes nothing.
pub proof fn lemma_parse_once(m: CliModel, argv: Seq<Seq<char>>, argv2: Seq<Seq<char>>)
    ensures
        parsed(parsed(m, argv), argv2) == parsed(m, argv),
{
}

/// No two options share a name.
pub open spec fn distinct_names(opts: Seq<OptModel>) -> bool {
    forall|i: int, j: int|
        0 <= i < opts.len() && 0 <= j < opts.len() && i != j ==> #[trigger] opts[i].name
            != #[trigger] opts[j].name
}

/// The names and kinds of the options, which reading arguments never changes.
pub open spec fn shape(opts: Seq<OptModel>) -> Seq<(Seq<char>, OptTyp)> {
    opts.map_values(|o: OptModel| (o.name, o.typ))
}

/// Some option named `flag` takes a value.
pub open spec fn takes_value(sh: Seq<(Seq<char>, OptTyp)>, flag: Seq<char>) -> bool {
    exists|j: int| 0 <= j < sh.len() && (#[trigger] sh[j]).0 == flag && sh[j].1 != OptTyp::NoArg
}

/// The arguments among `tokens` that are kept: those that do not start with `-`
/// and are not the value of the option named just before them, in order.
pub open spec fn plain_args(sh: Seq<(Seq<char>, OptTyp)>, tokens: Seq<Seq<char>>) -> Seq<Seq<char>>
    decreases tokens.len(),
{
    if tokens.len() == 0 {
        Seq::empty()
    } else if (tokens[0].len() > 0 && tokens[0][0] == '-') {
        if takes_value(sh, tokens[0].drop_first()) && tokens.len() >= 2 {
            plain_args(sh, tokens.skip(2))
        } else {
            plain_args(sh, tokens.drop_first())
        }
    } else {
        seq![tokens[0]] + plain_args(sh, tokens.drop_first())
    }
}

/// The value of option `k` after `tokens`, starting from `v`: each occurrence of
/// its name as an option sets it (`Empty`, or the value read from the next
/// argument, if there is one), so the last occurrence decides; arguments taken as
/// the value of another option do not count as occurrences.
pub open spec fn last_value(
    sh: Seq<(Seq<char>, OptTyp)>,
    tokens: Seq<Seq<char>>,
    k: int,
    v: Option<OptValue>,
) -> Option<OptValue>
    decreases tokens.len(),
{
    if tokens.len() == 0 {
        v
    } else if (tokens[0].len() > 0 && tokens[0][0] == '-') {
        let flag = tokens[0].drop_first();
        if sh[k].0 == flag {
            if sh[k].1 == OptTyp::NoArg {
                last_value(sh, tokens.drop_first(), k, Some(OptValue::Empty))
            } else if tokens.len() >= 2 {
                last_value(sh, tokens.skip(2), k, Some(value_for(sh[k].1, tokens[1])))
            } else {
                v
            }
        } else if takes_value(sh, flag) && tokens.len() >= 2 {
            last_value(sh, tokens.skip(2), k, v)
        } else {
            last_value(sh, tokens.drop_first(), k, v)
        }
    } else {
        last_value(sh, tokens.drop_first(), k, v)
    }
}

/// What the option token `-flag`, followed by `rest`, does to one option.
pub open spec fn flag_effect(o: OptModel, flag: Seq<char>, rest: Seq<Seq<char>>) -> OptModel {
    if o.name == flag {
        if o.typ == OptTyp::NoArg {
            with_value(o, OptValue::Empty)
        } else if rest.len() > 0 {
            with_value(o, value_for(o.typ, rest[0]))
        } else {
            o
        }
    } else {
        o
    }
}

proof fn lemma_apply_flag_effect(opts: Seq<OptModel>, j: nat, flag: Seq<char>, rest: Seq<Seq<char>>)
    requires
        distinct_names(opts),
        j <= opts.len(),
    ensures
        apply_flag(opts, j, flag, rest).0.len() == opts.len(),
        forall|k: int|
            0 <= k < opts.len() ==> #[trigger] apply_flag(opts, j, flag, rest).0[k] == if k >= j {
                flag_effect(opts[k], flag, rest)
            } else {
                opts[k]
            },
        apply_flag(opts, j, flag, rest).1 == if (exists|k: int|
            j <= k < opts.len() && (#[trigger] opts[k]).name == flag && opts[k].typ != OptTyp::NoArg)
            && rest.len() > 0 {
            rest.drop_first()
        } else {
            rest
        },
    decreases opts.len() - j,
{
    if j < opts.len() {
        let o = opts[j as int];
        if o.name != flag {
            lemma_apply_flag_effect(opts, j + 1, flag, rest);
            assert forall|k: int| j + 1 <= k < opts.len() && (#[trigger] opts[k]).name == flag
                && opts[k].typ != OptTyp::NoArg implies j <= k < opts.len() by {}
        } else {
            let nv = if o.typ == OptTyp::NoArg {
                OptValue::Empty
            } else if rest.len() > 0 {
                value_for(o.typ, rest[0])
            } else {
                OptValue::Empty
            };
            let o2 = opts.update(j as int, with_value(o, nv));
            assert forall|k: int| 0 <= k < opts.len() && k != j implies (#[trigger] opts[k]).name != flag by {
                assert(opts[k].name != opts[j as int].name);
            }
            if o.typ != OptTyp::NoArg && rest.len() == 0 {
                lemma_apply_flag_effect(opts, j + 1, flag, rest);
            } else {
                assert(distinct_names(o2)) by {
                    assert forall|a: int, b: int|
                        0 <= a < o2.len() && 0 <= b < o2.len() && a != b implies #[trigger] o2[a].name
                        != #[trigger] o2[b].name by {
                        assert(o2[a].name == opts[a].name && o2[b].name == opts[b].name);
                        assert(opts[a].name != opts[b].name);
                    }
                }
                let rest2 = if o.typ == OptTyp::NoArg {
                    rest
                } else {
                    rest.drop_first()
                };
                lemma_apply_flag_effect(o2, j + 1, flag, rest2);
                assert(!(exists|k: int|
                    j + 1 <= k < o2.len() && (#[trigger] o2[k]).name == flag && o2[k].typ
                        != OptTyp::NoArg)) by {
                    assert forall|k: int| j + 1 <= k < o2.len() implies !((#[trigger] o2[k]).name
                        == flag) by {
                        assert(o2[k] == opts[k]);
                    }
                }
                if o.typ != OptTyp::NoArg {
                    assert(opts[j as int].name == flag && opts[j as int].typ != OptTyp::NoArg);
                } else {
                    assert(!(exists|k: int|
                        j <= k < opts.len() && (#[trigger] opts[k]).name == flag && opts[k].typ
                            != OptTyp::NoArg)) by {
                        assert forall|k: int| j <= k < opts.len() && (#[trigger] opts[k]).name
                            == flag implies opts[k].typ == OptTyp::NoArg by {
                            if k != j {
                                assert(opts[k].name != flag);
                            }
                        }
                    }
                }
                assert forall|k: int| 0 <= k < opts.len() implies #[trigger] apply_flag(
                    opts,
                    j,
                    flag,
                    rest,
                ).0[k] == if k >= j {
                    flag_effect(opts[k], flag, rest)
                } else {
                    opts[k]
                } by {
                    if k > j {
                        assert(o2[k] == opts[k]);
                        assert(opts[k].name != flag);
                    }
                }
            }
        }
    }
}

/// With options of distinct names, reading `tokens` keeps exactly the arguments
/// that do not start with `-` and are not an option's value, in order, and gives
/// each option the value of its last occurrence (names, kinds and descriptions
/// unchanged).
pub proof fn lemma_parse_tokens_law(opts: Seq<OptModel>, tokens: Seq<Seq<char>>, args: Seq<Seq<char>>)
    requires
        distinct_names(opts),
    ensures
        parse_tokens(opts, tokens, args).1 == args + plain_args(shape(opts), tokens),
        parse_tokens(opts, tokens, args).0.len() == opts.len(),
        forall|k: int|
            0 <= k < opts.len() ==> #[trigger] parse_tokens(opts, tokens, args).0[k] == (OptModel {
                value: last_value(shape(opts), tokens, k, opts[k].value),
                ..opts[k]
            }),
    decreases tokens.len(),
{
    let sh = shape(opts);
    if tokens.len() == 0 {
        assert(args + plain_args(sh, tokens) =~= args);
    } else if is_option_token(tokens[0]) {
        let flag = tokens[0].drop_first();
        let rest = tokens.drop_first();
        lemma_apply_flag_effect(opts, 0, flag, rest);
        let r = apply_flag(opts, 0, flag, rest);
        let o2 = r.0;
        assert(shape(o2) =~= sh) by {
            assert forall|k: int| 0 <= k < o2.len() implies shape(o2)[k] == sh[k] by {
                assert(o2[k] == flag_effect(opts[k], flag, rest));
            }
        }
        assert(distinct_names(o2)) by {
            assert forall|a: int, b: int|
                0 <= a < o2.len() && 0 <= b < o2.len() && a != b implies #[trigger] o2[a].name
                != #[trigger] o2[b].name by {
                assert(o2[a] == flag_effect(opts[a], flag, rest));
                assert(o2[b] == flag_effect(opts[b], flag, rest));
                assert(opts[a].name != opts[b].name);
            }
        }
        let tv = exists|k: int| 0 <= k < opts.len() && (#[trigger] opts[k]).name == flag && opts[k].typ
            != OptTyp::NoArg;
        assert(tv == takes_value(sh, flag)) by {
            if tv {
                let k = choose|k: int| 0 <= k < opts.len() && (#[trigger] opts[k]).name == flag
                    && opts[k].typ != OptTyp::NoArg;
                assert(sh[k] == (opts[k].name, opts[k].typ));
            }
            if takes_value(sh, flag) {
                let k = choose|k: int| 0 <= k < sh.len() && (#[trigger] sh[k]).0 == flag && sh[k].1
                    != OptTyp::NoArg;
                assert(sh[k] == (opts[k].name, opts[k].typ));
            }
        }
        if tokens.len() >= 2 {
            assert(rest.drop_first() =~= tokens.skip(2));
        }
        lemma_parse_tokens_law(o2, r.1, args);
        assert forall|k: int| 0 <= k < opts.len() implies #[trigger] parse_tokens(
            opts,
            tokens,
            args,
        ).0[k] == (OptModel { value: last_value(sh, tokens, k, opts[k].value), ..opts[k] }) by {
            assert(o2[k] == flag_effect(opts[k], flag, rest));
            assert(sh[k] == (opts[k].name, opts[k].typ));
            if opts[k].name == flag {
                assert forall|m: int| 0 <= m < opts.len() && m != k implies (#[trigger] opts[m]).name
                    != flag by {
                    assert(opts[m].name != opts[k].name);
                }
                if opts[k].typ == OptTyp::NoArg {
                    assert(!tv);
                } else {
                    assert(tv);
                }
            }
        }
    } else {
        lemma_parse_tokens_law(opts, tokens.drop_first(), args.push(tokens[0]));
        assert(args.push(tokens[0]) + plain_args(sh, tokens.drop_first()) =~= args + (seq![tokens[0]]
            + plain_args(sh, tokens.drop_first())));
    }
}

/// The same law for a parser reading its argument list: the program name is
/// skipped, the kept arguments are added in order after those kept before, and
/// each option ends with the value of its last occurrence.
pub proof fn lemma_parsed_law(m: CliModel, argv: Seq<Seq<char>>)
    requires
        m.unprocessed,
        distinct_names(m.opts),
    ensures
        ({
            let tokens = if argv.len() > 0 {
                argv.drop_first()
            } else {
                argv
            };
            let p = parsed(m, argv);
            &&& !p.unprocessed
            &&& p.descr == m.descr
            &&& p.args == m.args + plain_args(shape(m.opts), tokens)
            &&& p.opts.len() == m.opts.len()
            &&& forall|k: int|
                0 <= k < m.opts.len() ==> #[trigger] p.opts[k] == (OptModel {
                    value: last_value(shape(m.opts), tokens, k, m.opts[k].value),
                    ..m.opts[k]
                })
        }),
{
    let tokens = if argv.len() > 0 {
        argv.drop_first()
    } else {
        argv
    };
    lemma_parse_tokens_law(m.opts, tokens, m.args);
}

/// A parser reading an argument list in which nothing after the program name
/// starts with `-` keeps every one of those arguments as a file argument, in order.
pub proof fn lemma_parsed_plain_arguments(m: CliModel, argv: Seq<Seq<char>>)
    requires
        m.unprocessed,
        argv.len() > 0,
        forall|i: int| 1 <= i < argv.len() ==> (#[trigger] argv[i]).len() == 0 || argv[i][0] != '-',
    ensures
        parsed(m, argv).args == m.args + argv.drop_first(),
        parsed(m, argv).opts == m.opts,
{
    assert forall|i: int| 0 <= i < argv.drop_first().len() implies (#[trigger] argv.drop_first()[i]).len()
        == 0 || argv.drop_first()[i][0] != '-' by {
        assert(argv.drop_first()[i] == argv[i + 1]);
    }
    lemma_parse_plain_arguments(m.opts, argv.drop_first(), m.args);
}

} // verus!
