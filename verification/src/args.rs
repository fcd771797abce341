//! The arguments of the benchmarks.

use crate::client::Mode;
use crate::text::{integer_in, parse_unsigned, same_text, texts};
use vstd::prelude::*;

verus! {

/// The arguments of a benchmark over the network.
#[derive(Debug)]
pub struct Args {
    pub addr: String,
    pub conns: usize,
    pub pipeline: usize,
    pub seconds: u64,
    pub mode: Mode,
    pub keys: u64,
    pub fill_keys: u64,
    pub value_len: usize,
}

/// What arguments say.
#[verifier::ext_equal]
pub struct ArgsView {
    pub addr: Seq<char>,
    pub conns: usize,
    pub pipeline: usize,
    pub seconds: u64,
    pub mode: Mode,
    pub keys: u64,
    pub fill_keys: u64,
    pub value_len: usize,
}

impl View for Args {
    type V = ArgsView;

    open spec fn view(&self) -> ArgsView {
        ArgsView {
            addr: self.addr@,
            conns: self.conns,
            pipeline: self.pipeline,
            seconds: self.seconds,
            mode: self.mode,
            keys: self.keys,
            fill_keys: self.fill_keys,
            value_len: self.value_len,
        }
    }
}

/// What is wrong with arguments.
#[derive(Debug)]
pub enum ArgError {
    /// An option without a value.
    Missing(String),
    /// An unknown option.
    Unknown(String),
    /// A mode that is none.
    UnknownMode(String),
    /// A value that is no number in range.
    NotANumber(String),
}

/// What is said to be wrong with arguments.
pub enum ArgErrorView {
    Missing(Seq<char>),
    Unknown(Seq<char>),
    UnknownMode(Seq<char>),
    NotANumber(Seq<char>),
}

impl View for ArgError {
    type V = ArgErrorView;

    open spec fn view(&self) -> ArgErrorView {
        match self {
            ArgError::Missing(s) => ArgErrorView::Missing(s@),
            ArgError::Unknown(s) => ArgErrorView::Unknown(s@),
            ArgError::UnknownMode(s) => ArgErrorView::UnknownMode(s@),
            ArgError::NotANumber(s) => ArgErrorView::NotANumber(s@),
        }
    }
}

/// The mode that a word stands for.
pub open spec fn mode_of(v: Seq<char>) -> Option<Mode> {
    if v == "read"@ {
        Some(Mode::Read)
    } else if v == "write"@ {
        Some(Mode::Write)
    } else if v == "mixed"@ {
        Some(Mode::Mixed)
    } else {
        None
    }
}

/// The mode that a word stands for.
pub fn parse_mode(v: &str) -> (r: Option<Mode>)
    ensures
        r == mode_of(v@),
{
    if same_text(v, "read") {
        Some(Mode::Read)
    } else if same_text(v, "write") {
        Some(Mode::Write)
    } else if same_text(v, "mixed") {
        Some(Mode::Mixed)
    } else {
        None
    }
}

/// A number of 64 bits.
pub open spec fn number(v: Seq<char>) -> Option<int> {
    integer_in(v, false, 0, u64::MAX as int)
}

/// A number that can count what is in memory.
pub open spec fn count(v: Seq<char>) -> Option<int> {
    integer_in(v, false, 0, usize::MAX as int)
}

/// Arguments with one option set.
pub open spec fn with_option(a: ArgsView, k: Seq<char>, v: Seq<char>) -> Result<
    ArgsView,
    ArgErrorView,
> {
    if k == "--addr"@ {
        Ok(ArgsView { addr: v, ..a })
    } else if k == "--conns"@ {
        match count(v) {
            Some(n) => Ok(ArgsView { conns: n as usize, ..a }),
            None => Err(ArgErrorView::NotANumber(v)),
        }
    } else if k == "--pipeline"@ {
        match count(v) {
            Some(n) => Ok(ArgsView { pipeline: n as usize, ..a }),
            None => Err(ArgErrorView::NotANumber(v)),
        }
    } else if k == "--seconds"@ {
        match number(v) {
            Some(n) => Ok(ArgsView { seconds: n as u64, ..a }),
            None => Err(ArgErrorView::NotANumber(v)),
        }
    } else if k == "--mode"@ {
        match mode_of(v) {
            Some(mode) => Ok(ArgsView { mode, ..a }),
            None => Err(ArgErrorView::UnknownMode(v)),
        }
    } else if k == "--keys"@ {
        match number(v) {
            Some(n) => Ok(ArgsView { keys: n as u64, ..a }),
            None => Err(ArgErrorView::NotANumber(v)),
        }
    } else if k == "--fill-keys"@ {
        match number(v) {
            Some(n) => Ok(ArgsView { fill_keys: n as u64, ..a }),
            None => Err(ArgErrorView::NotANumber(v)),
        }
    } else if k == "--value-len"@ {
        match count(v) {
            Some(n) => Ok(ArgsView { value_len: n as usize, ..a }),
            None => Err(ArgErrorView::NotANumber(v)),
        }
    } else {
        Err(ArgErrorView::Unknown(k))
    }
}

/// Arguments with the options from the `i`-th word on set.
pub open spec fn with_options(a: ArgsView, words: Seq<Seq<char>>, i: int) -> Result<
    ArgsView,
    ArgErrorView,
>
    decreases words.len() - i,
{
    if i >= words.len() {
        Ok(a)
    } else if i + 1 >= words.len() {
        Err(ArgErrorView::Missing(words[i]))
    } else {
        match with_option(a, words[i], words[i + 1]) {
            Err(e) => Err(e),
            Ok(b) => with_options(b, words, i + 2),
        }
    }
}

/// The arguments without options, for so many connections with so many
/// requests under way.
pub open spec fn default_args(conns: usize, pipeline: usize) -> ArgsView {
    ArgsView {
        addr: "127.0.0.1:9042"@,
        conns,
        pipeline,
        seconds: 10,
        mode: Mode::Read,
        keys: 1_000_000,
        fill_keys: 200_000,
        value_len: 64,
    }
}

fn parse_number(v: &str) -> (r: Result<u64, ArgError>)
    ensures
        match number(v@) {
            Some(n) => r == Ok::<u64, ArgError>(n as u64),
            None => r matches Err(e) && e@ == ArgErrorView::NotANumber(v@),
        },
{
    match parse_unsigned(v, u64::MAX) {
        Some(n) => Ok(n),
        None => Err(ArgError::NotANumber(v.to_owned())),
    }
}

fn parse_count(v: &str) -> (r: Result<usize, ArgError>)
    ensures
        match count(v@) {
            Some(n) => r == Ok::<usize, ArgError>(n as usize),
            None => r matches Err(e) && e@ == ArgErrorView::NotANumber(v@),
        },
{
    match parse_unsigned(v, usize::MAX as u64) {
        Some(n) => Ok(n as usize),
        None => Err(ArgError::NotANumber(v.to_owned())),
    }
}

fn set_option(a: &mut Args, k: &str, v: &str) -> (r: Result<(), ArgError>)
    ensures
        match with_option(old(a)@, k@, v@) {
            Ok(b) => r is Ok && final(a)@ == b,
            Err(e) => r matches Err(x) && x@ == e,
        },
{
    if same_text(k, "--addr") {
        a.addr = v.to_owned();
    } else if same_text(k, "--conns") {
        match parse_count(v) {
            Ok(n) => a.conns = n,
            Err(e) => return Err(e),
        }
    } else if same_text(k, "--pipeline") {
        match parse_count(v) {
            Ok(n) => a.pipeline = n,
            Err(e) => return Err(e),
        }
    } else if same_text(k, "--seconds") {
        match parse_number(v) {
            Ok(n) => a.seconds = n,
            Err(e) => return Err(e),
        }
    } else if same_text(k, "--mode") {
        match parse_mode(v) {
            Some(mode) => a.mode = mode,
            None => return Err(ArgError::UnknownMode(v.to_owned())),
        }
    } else if same_text(k, "--keys") {
        match parse_number(v) {
            Ok(n) => a.keys = n,
            Err(e) => return Err(e),
        }
    } else if same_text(k, "--fill-keys") {
        match parse_number(v) {
            Ok(n) => a.fill_keys = n,
            Err(e) => return Err(e),
        }
    } else if same_text(k, "--value-len") {
        match parse_count(v) {
            Ok(n) => a.value_len = n,
            Err(e) => return Err(e),
        }
    } else {
        return Err(ArgError::Unknown(k.to_owned()));
    }
    Ok(())
}

/// The arguments that words state, over the defaults for so many connections
/// with so many requests under way.
pub fn parse_args(words: &Vec<String>, conns: usize, pipeline: usize) -> (r: Result<Args, ArgError>)
    ensures
        match with_options(default_args(conns, pipeline), texts(words@), 0) {
            Ok(a) => r matches Ok(x) && x@ == a,
            Err(e) => r matches Err(x) && x@ == e,
        },
{
    let mut a: Args = Args {
        addr: "127.0.0.1:9042".to_owned(),
        conns,
        pipeline,
        seconds: 10,
        mode: Mode::Read,
        keys: 1_000_000,
        fill_keys: 200_000,
        value_len: 64,
    };
    let ghost views = texts(words@);
    let ghost all = with_options(a@, views, 0);
    let n: usize = words.len();
    let mut i: usize = 0;
    while i < n
        invariant
            i <= n,
            n == words@.len(),
            views == texts(words@),
            all == with_options(default_args(conns, pipeline), views, 0),
            all == with_options(a@, views, i as int),
        decreases n - i,
    {
        assert(views[i as int] == words@[i as int]@);
        if n - i < 2 {
            return Err(ArgError::Missing(words[i].clone()));
        }
        assert(views[i + 1] == words@[i + 1]@);
        if let Err(e) = set_option(&mut a, &words[i], &words[i + 1]) {
            return Err(e);
        }
        i += 2;
    }
    Ok(a)
}

/// The arguments of the benchmark of the storage alone.
#[derive(Debug)]
pub struct StorageArgs {
    pub data: String,
    pub keys: u64,
    pub fill: u64,
    pub threads: usize,
    pub seconds: u64,
}

/// What those arguments say.
#[verifier::ext_equal]
pub struct StorageArgsView {
    pub data: Seq<char>,
    pub keys: u64,
    pub fill: u64,
    pub threads: usize,
    pub seconds: u64,
}

impl View for StorageArgs {
    type V = StorageArgsView;

    open spec fn view(&self) -> StorageArgsView {
        StorageArgsView {
            data: self.data@,
            keys: self.keys,
            fill: self.fill,
            threads: self.threads,
            seconds: self.seconds,
        }
    }
}

/// A number of 64 bits, or else another.
pub open spec fn number_or(v: Seq<char>, other: u64) -> u64 {
    match number(v) {
        Some(n) => n as u64,
        None => other,
    }
}

/// Whether a word is an option with a value.
pub open spec fn takes_value(k: Seq<char>) -> bool {
    k == "--data"@ || k == "--keys"@ || k == "--fill"@ || k == "--threads"@ || k == "--seconds"@
}

/// Arguments with one option set. A value that is no number is passed over.
pub open spec fn with_storage_option(
    a: StorageArgsView,
    k: Seq<char>,
    v: Seq<char>,
) -> StorageArgsView {
    if k == "--data"@ {
        StorageArgsView { data: v, ..a }
    } else if k == "--keys"@ {
        StorageArgsView { keys: number_or(v, a.keys), ..a }
    } else if k == "--fill"@ {
        StorageArgsView { fill: number_or(v, a.fill), ..a }
    } else if k == "--threads"@ {
        StorageArgsView {
            threads: match count(v) {
                Some(n) => n as usize,
                None => a.threads,
            },
            ..a
        }
    } else if k == "--seconds"@ {
        StorageArgsView { seconds: number_or(v, a.seconds), ..a }
    } else {
        a
    }
}

/// Arguments with the options from the `i`-th word on set. Words that are no
/// options are passed over.
pub open spec fn with_storage_options(
    a: StorageArgsView,
    words: Seq<Seq<char>>,
    i: int,
) -> StorageArgsView
    decreases words.len() - i,
{
    if i >= words.len() {
        a
    } else if !takes_value(words[i]) {
        with_storage_options(a, words, i + 1)
    } else if i + 1 >= words.len() {
        a
    } else {
        with_storage_options(with_storage_option(a, words[i], words[i + 1]), words, i + 2)
    }
}

fn parse_number_or(v: &str, other: u64) -> (r: u64)
    ensures
        r == number_or(v@, other),
{
    match parse_unsigned(v, u64::MAX) {
        Some(n) => n,
        None => other,
    }
}

fn is_storage_option(k: &str) -> (r: bool)
    ensures
        r == takes_value(k@),
{
    same_text(k, "--data") || same_text(k, "--keys") || same_text(k, "--fill") || same_text(
        k,
        "--threads",
    ) || same_text(k, "--seconds")
}

fn set_storage_option(a: &mut StorageArgs, k: &str, v: &str)
    ensures
        final(a)@ == with_storage_option(old(a)@, k@, v@),
{
    if same_text(k, "--data") {
        a.data = v.to_owned();
    } else if same_text(k, "--keys") {
        a.keys = parse_number_or(v, a.keys);
    } else if same_text(k, "--fill") {
        a.fill = parse_number_or(v, a.fill);
    } else if same_text(k, "--threads") {
        if let Some(n) = parse_unsigned(v, usize::MAX as u64) {
            a.threads = n as usize;
        }
    } else if same_text(k, "--seconds") {
        a.seconds = parse_number_or(v, a.seconds);
    }
}

/// The arguments of the benchmark of the storage alone, without options.
pub open spec fn default_storage_args(data: Seq<char>, threads: usize) -> StorageArgsView {
    StorageArgsView { data, keys: 1_000_000, fill: 200_000, threads, seconds: 10 }
}

/// The arguments of the benchmark of the storage alone, given where its data
/// is and how many threads there are unless the words say otherwise.
pub fn parse_storage_args(words: &Vec<String>, data: &str, threads: usize) -> (a: StorageArgs)
    ensures
        a@ == with_storage_options(
            default_storage_args(data@, threads),
            texts(words@),
            0,
        ),
{
    let mut a: StorageArgs = StorageArgs {
        data: data.to_owned(),
        keys: 1_000_000,
        fill: 200_000,
        threads,
        seconds: 10,
    };
    let ghost views = texts(words@);
    let ghost all = with_storage_options(a@, views, 0);
    let n: usize = words.len();
    let mut i: usize = 0;
    while i < n
        invariant
            i <= n,
            n == words@.len(),
            views == texts(words@),
            all == with_storage_options(default_storage_args(data@, threads), views, 0),
            all == with_storage_options(a@, views, i as int),
        decreases n - i,
    {
        assert(views[i as int] == words@[i as int]@);
        if !is_storage_option(&words[i]) {
            i += 1;
        } else if n - i < 2 {
            return a;
        } else {
            assert(views[i + 1] == words@[i + 1]@);
            set_storage_option(&mut a, &words[i], &words[i + 1]);
            i += 2;
        }
    }
    a
}

} // verus!
