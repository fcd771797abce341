//! What the server and the programs around it take from outside: options of the
//! command line, settings, probes and the load of a client.

use crate::args::{
    with_option, with_options, with_storage_option, with_storage_options, ArgErrorView, ArgsView,
    StorageArgsView,
};
use crate::bytes::{be64, has_prefix};
use crate::client::{
    execute_bytes, inserts, law_execute_is_read, next_body, next_key, present, stream_after, Mode,
    Workload,
};
use crate::health::{http_text, metrics_body, probe_answer, Answer};
use crate::layout::{lemma_spells, spells};
use crate::server::{handled_execute, prepared_under, ConnectionView, HandledView};
use crate::storage::{
    engine_for, fnv1a_hash, planned_engines, setting_value, OpenSettings,
};
use crate::text::{decimal, integer_in, is_digit, lemma_decimal};
use cql3_parser::cassandra_statement::CassandraStatement;
use vstd::prelude::*;
use vstd::utf8::encode_utf8;

verus! {

proof fn lemma_number(n: nat, max: int)
    requires
        n <= max,
    ensures
        integer_in(decimal(n), false, 0, max) == Some(n as int),
{
    lemma_decimal(n);
    assert(is_digit(decimal(n)[0]));
}

proof fn lemma_no_number(v: Seq<char>, i: int, max: int)
    requires
        0 <= i < v.len(),
        !('0' <= v[i] <= '9'),
        i > 0 || v[0] != '+' || v.len() == 1,
    ensures
        integer_in(v, false, 0, max) is None,
{
    let body = if v[0] == '+' {
        v.drop_first()
    } else {
        v
    };
    if v[0] == '+' {
        if i > 0 {
            assert(body[i - 1] == v[i]);
            assert(!is_digit(body[i - 1]));
        }
    } else {
        assert(!is_digit(body[i]));
    }
}

/// What the options of the load generator set.
pub open spec fn sets_number(name: Seq<char>, a: ArgsView, n: nat, b: ArgsView) -> bool {
    if name == "--conns"@ {
        b == ArgsView { conns: n as usize, ..a }
    } else if name == "--pipeline"@ {
        b == ArgsView { pipeline: n as usize, ..a }
    } else if name == "--value-len"@ {
        b == ArgsView { value_len: n as usize, ..a }
    } else if name == "--seconds"@ {
        b == ArgsView { seconds: n as u64, ..a }
    } else if name == "--keys"@ {
        b == ArgsView { keys: n as u64, ..a }
    } else {
        name == "--fill-keys"@ && b == ArgsView { fill_keys: n as u64, ..a }
    }
}

/// Whether an option of the load generator takes a number.
pub open spec fn takes_number(name: Seq<char>) -> bool {
    name == "--conns"@ || name == "--pipeline"@ || name == "--value-len"@ || name == "--seconds"@
        || name == "--keys"@ || name == "--fill-keys"@
}

proof fn lemma_option_names()
    ensures
        "--addr"@ != "--conns"@,
        "--addr"@ != "--pipeline"@,
        "--addr"@ != "--seconds"@,
        "--addr"@ != "--mode"@,
        "--addr"@ != "--keys"@,
        "--addr"@ != "--fill-keys"@,
        "--addr"@ != "--value-len"@,
        "--conns"@ != "--pipeline"@,
        "--conns"@ != "--seconds"@,
        "--conns"@ != "--mode"@,
        "--conns"@ != "--keys"@,
        "--conns"@ != "--fill-keys"@,
        "--conns"@ != "--value-len"@,
        "--pipeline"@ != "--seconds"@,
        "--pipeline"@ != "--mode"@,
        "--pipeline"@ != "--keys"@,
        "--pipeline"@ != "--fill-keys"@,
        "--pipeline"@ != "--value-len"@,
        "--seconds"@ != "--mode"@,
        "--seconds"@ != "--keys"@,
        "--seconds"@ != "--fill-keys"@,
        "--seconds"@ != "--value-len"@,
        "--mode"@ != "--keys"@,
        "--mode"@ != "--fill-keys"@,
        "--mode"@ != "--value-len"@,
        "--keys"@ != "--fill-keys"@,
        "--keys"@ != "--value-len"@,
        "--fill-keys"@ != "--value-len"@,
{
    reveal_strlit("--addr");
    reveal_strlit("--conns");
    reveal_strlit("--pipeline");
    reveal_strlit("--seconds");
    reveal_strlit("--mode");
    reveal_strlit("--keys");
    reveal_strlit("--fill-keys");
    reveal_strlit("--value-len");
    assert("--addr"@[2] == 'a');
    assert("--conns"@[2] == 'c');
    assert("--pipeline"@[2] == 'p');
    assert("--seconds"@[2] == 's');
    assert("--mode"@[2] == 'm');
    assert("--keys"@[2] == 'k');
    assert("--fill-keys"@[2] == 'f');
    assert("--value-len"@[2] == 'v');
}

/// An option of the load generator that takes a number sets what it names to the
/// number, and nothing else; with what is no number it is refused.
pub proof fn law_numbers_are_taken(a: ArgsView, name: Seq<char>, n: nat, bad: Seq<char>, i: int)
    requires
        takes_number(name),
        n <= u64::MAX && n <= usize::MAX,
        0 <= i < bad.len(),
        !('0' <= bad[i] <= '9'),
        i > 0 || bad[0] != '+' || bad.len() == 1,
    ensures
        with_option(a, name, decimal(n)) matches Ok(b) && sets_number(name, a, n, b),
        with_option(a, name, bad) == Err::<ArgsView, ArgErrorView>(ArgErrorView::NotANumber(bad)),
{
    lemma_option_names();
    lemma_number(n, u64::MAX as int);
    lemma_number(n, usize::MAX as int);
    lemma_no_number(bad, i, u64::MAX as int);
    lemma_no_number(bad, i, usize::MAX as int);
}

/// The address is what follows `--addr`, and the mode what follows `--mode`; other
/// options are refused.
pub proof fn law_other_options_are_taken(a: ArgsView, name: Seq<char>, v: Seq<char>)
    ensures
        with_option(a, "--addr"@, v) == Ok::<ArgsView, ArgErrorView>(ArgsView { addr: v, ..a }),
        with_option(a, "--mode"@, "read"@) == Ok::<ArgsView, ArgErrorView>(
            ArgsView { mode: Mode::Read, ..a },
        ),
        with_option(a, "--mode"@, "write"@) == Ok::<ArgsView, ArgErrorView>(
            ArgsView { mode: Mode::Write, ..a },
        ),
        with_option(a, "--mode"@, "mixed"@) == Ok::<ArgsView, ArgErrorView>(
            ArgsView { mode: Mode::Mixed, ..a },
        ),
        v != "read"@ && v != "write"@ && v != "mixed"@ ==> with_option(a, "--mode"@, v) == Err::<
            ArgsView,
            ArgErrorView,
        >(ArgErrorView::UnknownMode(v)),
        !takes_number(name) && name != "--addr"@ && name != "--mode"@ ==> with_option(a, name, v)
            == Err::<ArgsView, ArgErrorView>(ArgErrorView::Unknown(name)),
{
    lemma_option_names();
    reveal_strlit("read");
    reveal_strlit("write");
    reveal_strlit("mixed");
    assert("read"@.len() == 4);
    assert("write"@[0] == 'w');
    assert("mixed"@[0] == 'm');
}

/// Options of the load generator take effect one after the other, so that of two
/// alike the last counts; an option without a value is refused.
pub proof fn law_options_act_in_turn(
    a: ArgsView,
    words: Seq<Seq<char>>,
    name: Seq<char>,
    v: Seq<char>,
)
    requires
        words.len() % 2 == 0,
    ensures
        with_options(a, Seq::empty(), 0) == Ok::<ArgsView, ArgErrorView>(a),
        with_options(a, words.push(name).push(v), 0) == match with_options(a, words, 0) {
            Ok(b) => with_option(b, name, v),
            Err(e) => Err(e),
        },
        with_options(a, words, 0) is Ok ==> with_options(a, words.push(name), 0) == Err::<
            ArgsView,
            ArgErrorView,
        >(ArgErrorView::Missing(name)),
{
    lemma_options_in_turn(a, words, name, v, 0);
}

proof fn lemma_options_in_turn(
    a: ArgsView,
    words: Seq<Seq<char>>,
    name: Seq<char>,
    v: Seq<char>,
    i: int,
)
    requires
        words.len() % 2 == 0,
        i % 2 == 0,
        0 <= i <= words.len(),
    ensures
        with_options(a, words.push(name).push(v), i) == match with_options(a, words, i) {
            Ok(b) => with_option(b, name, v),
            Err(e) => Err(e),
        },
        with_options(a, words, i) is Ok ==> with_options(a, words.push(name), i) == Err::<
            ArgsView,
            ArgErrorView,
        >(ArgErrorView::Missing(name)),
    decreases words.len() - i,
{
    let longer = words.push(name).push(v);
    let cut = words.push(name);
    if i == words.len() {
        if let Ok(b) = with_option(a, name, v) {
            assert(with_options(b, longer, i + 2) == Ok::<ArgsView, ArgErrorView>(b));
        }
    } else {
        assert(longer[i] == words[i] && longer[i + 1] == words[i + 1]);
        assert(cut[i] == words[i] && cut[i + 1] == words[i + 1]);
        if let Ok(b) = with_option(a, words[i], words[i + 1]) {
            lemma_options_in_turn(b, words, name, v, i + 2);
        }
    }
}

/// What the options of the storage benchmark set.
pub proof fn law_storage_options_are_taken(a: StorageArgsView, v: Seq<char>, n: nat)
    requires
        n <= u64::MAX && n <= usize::MAX,
    ensures
        with_storage_option(a, "--data"@, v) == (StorageArgsView { data: v, ..a }),
        with_storage_option(a, "--keys"@, decimal(n)) == (StorageArgsView { keys: n as u64, ..a }),
        with_storage_option(a, "--fill"@, decimal(n)) == (StorageArgsView { fill: n as u64, ..a }),
        with_storage_option(a, "--threads"@, decimal(n)) == (StorageArgsView {
            threads: n as usize,
            ..a
        }),
        with_storage_option(a, "--seconds"@, decimal(n)) == (StorageArgsView {
            seconds: n as u64,
            ..a
        }),
        with_storage_options(a, seq!["--data"@, v], 0) == (StorageArgsView { data: v, ..a }),
{
    lemma_number(n, u64::MAX as int);
    lemma_number(n, usize::MAX as int);
    reveal_strlit("--data");
    reveal_strlit("--keys");
    reveal_strlit("--fill");
    reveal_strlit("--threads");
    reveal_strlit("--seconds");
    assert("--data"@[2] == 'd');
    assert("--keys"@[2] == 'k');
    assert("--fill"@[2] == 'f');
    assert("--threads"@[2] == 't');
    assert("--seconds"@[2] == 's');
    let words = seq!["--data"@, v];
    let b = StorageArgsView { data: v, ..a };
    assert(with_storage_options(b, words, 2) == b);
    assert(words[0] == "--data"@ && words[1] == v);
}

/// Options of the storage benchmark take effect one after the other; a number that
/// is none changes nothing, and neither does a word that is no option.
pub proof fn law_storage_options_act_in_turn(
    a: StorageArgsView,
    words: Seq<Seq<char>>,
    name: Seq<char>,
    v: Seq<char>,
    bad: Seq<char>,
    i: int,
)
    requires
        are_storage_options(words),
        0 <= i < bad.len(),
        !('0' <= bad[i] <= '9'),
        i > 0 || bad[0] != '+' || bad.len() == 1,
    ensures
        is_storage_option(name) ==> with_storage_options(a, words.push(name).push(v), 0)
            == with_storage_option(with_storage_options(a, words, 0), name, v),
        !is_storage_option(name) ==> with_storage_options(a, words.push(name), 0)
            == with_storage_options(a, words, 0),
        name != "--data"@ ==> with_storage_option(a, name, bad) == a,
{
    lemma_no_number(bad, i, u64::MAX as int);
    lemma_no_number(bad, i, usize::MAX as int);
    lemma_storage_options_in_turn(a, words, name, v, 0);
}

/// Whether a word is an option of the storage benchmark.
pub open spec fn is_storage_option(name: Seq<char>) -> bool {
    name == "--data"@ || name == "--keys"@ || name == "--fill"@ || name == "--threads"@ || name
        == "--seconds"@
}

/// Whether words are options, each with a value.
pub open spec fn are_storage_options(words: Seq<Seq<char>>) -> bool {
    words.len() % 2 == 0 && forall|i: int|
        0 <= i < words.len() && i % 2 == 0 ==> is_storage_option(#[trigger] words[i])
}

proof fn lemma_storage_options_in_turn(
    a: StorageArgsView,
    words: Seq<Seq<char>>,
    name: Seq<char>,
    v: Seq<char>,
    i: int,
)
    requires
        are_storage_options(words),
        i % 2 == 0,
        0 <= i <= words.len(),
    ensures
        is_storage_option(name) ==> with_storage_options(a, words.push(name).push(v), i)
            == with_storage_option(with_storage_options(a, words, i), name, v),
        !is_storage_option(name) ==> with_storage_options(a, words.push(name), i)
            == with_storage_options(a, words, i),
    decreases words.len() - i,
{
    let longer = words.push(name).push(v);
    let cut = words.push(name);
    if i == words.len() {
        let b = with_storage_option(a, name, v);
        assert(with_storage_options(b, longer, i + 2) == b);
        assert(with_storage_options(a, cut, i + 1) == a);
    } else {
        assert(is_storage_option(words[i]));
        assert(longer[i] == words[i] && longer[i + 1] == words[i + 1]);
        assert(cut[i] == words[i] && cut[i + 1] == words[i + 1]);
        let b = with_storage_option(a, words[i], words[i + 1]);
        lemma_storage_options_in_turn(b, words, name, v, i + 2);
    }
}

/// A setting counts where it is a number within its bounds; above them the upper
/// bound counts, below them the lower one, and what is no number is as if it were
/// not set.
pub proof fn law_settings_are_clamped(
    n: nat,
    bad: Seq<char>,
    i: int,
    default: int,
    min: int,
    max: int,
)
    requires
        0 <= min <= max <= usize::MAX,
        0 <= default,
        n <= usize::MAX,
        0 <= i < bad.len(),
        !('0' <= bad[i] <= '9'),
        i > 0 || bad[0] != '+' || bad.len() == 1,
    ensures
        min <= n <= max ==> setting_value(Some(decimal(n)), default, min, max) == n,
        n > max ==> setting_value(Some(decimal(n)), default, min, max) == max,
        n < min ==> setting_value(Some(decimal(n)), default, min, max) == min,
        min <= default <= max ==> setting_value(None, default, min, max) == default,
        setting_value(Some(bad), default, min, max) == setting_value(None, default, min, max),
{
    lemma_number(n, usize::MAX as int);
    lemma_no_number(bad, i, usize::MAX as int);
}

/// New engines are as many as the setting says, up to 64, and else as many as
/// there are processors, but from two to eight.
pub proof fn law_engines_are_planned(s: OpenSettings)
    requires
        s.marker is None,
    ensures
        1 <= planned_engines(s) <= 64,
        s.engine_shards matches Some(text) ==> forall|n: nat|
            1 <= n <= 64 && text@ == #[trigger] decimal(n) ==> planned_engines(s) == n,
        s.engine_shards is None ==> {
            &&& 2 <= s.cpus <= 8 ==> planned_engines(s) == s.cpus
            &&& s.cpus < 2 ==> planned_engines(s) == 2
            &&& s.cpus > 8 ==> planned_engines(s) == 8
        },
{
    if let Some(text) = s.engine_shards {
        assert forall|n: nat| 1 <= n <= 64 && text@ == #[trigger] decimal(n) implies
            planned_engines(s) == n by {
            lemma_number(n, usize::MAX as int);
        }
    }
}

/// The engine of a key is the remainder of its FNV-1a hash: from the offset basis,
/// each byte is mixed in by exclusive or, then by a multiplication with the FNV
/// prime, in 64 bits.
pub proof fn law_keys_are_routed_by_hash(n: nat, key: Seq<u8>, b: u8)
    requires
        n >= 2,
    ensures
        engine_for(n, key) == fnv1a_hash(key) as int % n as int,
        0 <= engine_for(n, key) < n,
        fnv1a_hash(Seq::empty()) == 14695981039346656037,
        fnv1a_hash(key.push(b)) == ((fnv1a_hash(key) ^ (b as u64)) * 1099511628211)
            % 0x1_0000_0000_0000_0000,
{
    assert(key.push(b).drop_last() =~= key);
}

/// A text of lines, each ended by a carriage return and a line feed.
pub open spec fn lines_text(lines: Seq<Seq<char>>) -> Seq<char>
    decreases lines.len(),
{
    if lines.len() == 0 {
        Seq::empty()
    } else {
        lines_text(lines.drop_last()) + lines.last() + "\r\n"@
    }
}

/// Whether a text is an HTTP response: the status line, header lines among which
/// are the type and the length of the body, an empty line, and the body.
pub open spec fn is_response(
    text: Seq<char>,
    lines: Seq<Seq<char>>,
    status: Seq<char>,
    media: Seq<char>,
    body: Seq<char>,
) -> bool {
    &&& text == lines_text(lines) + "\r\n"@ + body
    &&& lines.len() > 0 && lines[0] == "HTTP/1.1 "@ + status
    &&& lines.contains("Content-Type: "@ + media)
    &&& lines.contains("Content-Length: "@ + decimal(encode_utf8(body).len()))
}

/// An answer is sent as an HTTP response with its status, its type and its body.
pub proof fn law_answers_are_responses(a: Answer)
    ensures
        exists|lines: Seq<Seq<char>>| #[trigger] is_response(http_text(a), lines, a.0, a.1, a.2),
{
    reveal_strlit("HTTP/1.1 ");
    reveal_strlit("\r\nContent-Type: ");
    reveal_strlit("Content-Type: ");
    reveal_strlit("\r\nContent-Length: ");
    reveal_strlit("Content-Length: ");
    reveal_strlit("\r\nConnection: close\r\n\r\n");
    reveal_strlit("Connection: close");
    reveal_strlit("\r\n");
    let l0 = "HTTP/1.1 "@ + a.0;
    let l1 = "Content-Type: "@ + a.1;
    let l2 = "Content-Length: "@ + decimal(encode_utf8(a.2).len());
    let l3 = "Connection: close"@;
    let lines = seq![l0, l1, l2, l3];
    let end = "\r\n"@;
    let t0 = Seq::<Seq<char>>::empty();
    let t1 = seq![l0];
    let t2 = seq![l0, l1];
    let t3 = seq![l0, l1, l2];
    assert(t1.drop_last() =~= t0);
    assert(t2.drop_last() =~= t1);
    assert(t3.drop_last() =~= t2);
    assert(lines.drop_last() =~= t3);
    assert(lines_text(t0) =~= Seq::<char>::empty());
    assert(lines_text(t1) =~= l0 + end);
    assert(lines_text(t2) =~= l0 + end + l1 + end);
    assert(lines_text(t3) =~= l0 + end + l1 + end + l2 + end);
    assert(lines_text(lines) =~= l0 + end + l1 + end + l2 + end + l3 + end);
    assert("\r\nContent-Type: "@ =~= end + "Content-Type: "@);
    assert("\r\nContent-Length: "@ =~= end + "Content-Length: "@);
    assert("\r\nConnection: close\r\n\r\n"@ =~= end + l3 + end + end);
    assert(http_text(a) =~= l0 + end + l1 + end + l2 + end + l3 + end + end + a.2);
    assert(lines_text(lines) + end + a.2 =~= http_text(a));
    assert(lines[1] == l1 && lines[2] == l2);
    assert(is_response(http_text(a), lines, a.0, a.1, a.2));
}

/// A probe for health or readiness, and one for metrics, is answered with 200 and
/// the uptime; a request for another path with 404, and anything else with 400.
pub proof fn law_probes_are_answered(request: Seq<u8>, uptime: u64)
    ensures
        ({
            let a = probe_answer(request, uptime);
            let health = has_prefix(request, encode_utf8("GET /health"@));
            let ready = has_prefix(request, encode_utf8("GET /ready"@));
            let metrics = has_prefix(request, encode_utf8("GET /metrics"@));
            let get = has_prefix(request, encode_utf8("GET /"@));
            let time = decimal(uptime as nat);
            &&& health || ready ==> a.0 == "200 OK"@ && a.1 == "application/json"@ && a.2
                == "{\"status\":\"ok\",\"uptime_sec\":"@ + time + "}"@
            &&& metrics && !health && !ready ==> a.0 == "200 OK"@ && (time
                + "\n"@).is_suffix_of(a.2)
            &&& get && !health && !ready && !metrics ==> a.0 == "404 Not Found"@
            &&& !get && !health && !ready && !metrics ==> a.0 == "400 Bad Request"@
        }),
{
    let a = probe_answer(request, uptime);
    let end = decimal(uptime as nat) + "\n"@;
    let m = metrics_body(uptime);
    reveal_strlit(r#"{"status":"ok","uptime_sec":"#);
    reveal_strlit("{\"status\":\"ok\",\"uptime_sec\":");
    assert(r#"{"status":"ok","uptime_sec":"#@ =~= "{\"status\":\"ok\",\"uptime_sec\":"@);
    assert(m.subrange(m.len() - end.len(), m.len() as int) =~= end);
}

/// A client that only writes writes every time, one that only reads never, and one
/// that does both writes every other time. It takes keys from one up to as many as
/// there are: all it may write, or those that were filled in.
pub proof fn law_load_is_as_chosen(w: Workload, i: int)
    requires
        i >= 0,
        w.mode is Write ==> w.keys >= 1,
    ensures
        inserts(Mode::Write, i),
        !inserts(Mode::Read, i),
        inserts(Mode::Mixed, i) <==> !inserts(Mode::Mixed, i + 1),
        inserts(Mode::Mixed, 0),
        1 <= next_key(w),
        w.mode is Write ==> next_key(w) <= w.keys,
        !(w.mode is Write) && w.filled >= 1 ==> next_key(w) <= w.filled,
        !(w.mode is Write) && w.filled == 0 ==> next_key(w) == 1,
{
}

/// A client numbers its requests from one stream to the next, and begins again
/// behind the last: every stream that is not negative comes round.
pub proof fn law_streams_come_round(stream: i16)
    requires
        stream >= 0,
    ensures
        stream_after(stream) >= 0,
        stream_after(stream) as int == (stream + 1) % 0x8000,
{
}

/// Whether a request runs the statement that was prepared under an id, with these
/// values, of which the first is a key in eight bytes.
pub open spec fn runs(
    h: HandledView,
    stmt: CassandraStatement,
    key: u64,
    others: Seq<Seq<u8>>,
    skip_metadata: bool,
) -> bool {
    h matches HandledView::Run(r) && r.stmt == stmt && r.skip_metadata == skip_metadata
        && r.values.len() == 1 + others.len() && (r.values[0] matches Some(k) && spells(
        k,
        8,
        key as int,
    )) && forall|i: int| 0 <= i < others.len() ==> r.values[i + 1] == Some(#[trigger] others[i])
}

proof fn lemma_runs(
    c: ConnectionView,
    id: Seq<u8>,
    key: u64,
    others: Seq<Seq<u8>>,
    skip_metadata: bool,
)
    requires
        id.len() <= u16::MAX,
        others.len() <= 1,
        forall|i: int| 0 <= i < others.len() ==> (#[trigger] others[i]).len() <= i32::MAX,
        prepared_under(c, id) matches Some(p) && p.bind_types.len() == 1 + others.len(),
    ensures
        runs(
            handled_execute(c, execute_bytes(id, seq![be64(key)] + others, skip_metadata)),
            prepared_under(c, id)->Some_0.stmt,
            key,
            others,
            skip_metadata,
        ),
{
    let vs = seq![be64(key)] + others;
    lemma_spells(key as nat, 8);
    assert forall|i: int| 0 <= i < vs.len() implies (#[trigger] vs[i]).len() <= i32::MAX by {
        if i > 0 {
            assert(vs[i] == others[i - 1]);
        }
    }
    law_execute_is_read(c, id, vs, skip_metadata);
    let values = present(vs);
    assert(values[0] == Some(be64(key)));
    assert forall|i: int| 0 <= i < others.len() implies values[i + 1] == Some(
        #[trigger] others[i],
    ) by {
        assert(vs[i + 1] == others[i]);
    }
}

/// What a client sends runs the statement that it prepared: to write, with the next
/// key and the value, and to read, with the next key alone.
pub proof fn law_load_runs_prepared_statements(c: ConnectionView, w: Workload)
    requires
        w.insert_id@.len() <= u16::MAX,
        w.select_id@.len() <= u16::MAX,
        w.value@.len() <= i32::MAX,
        prepared_under(c, w.insert_id@) matches Some(p) && p.bind_types.len() == 2,
        prepared_under(c, w.select_id@) matches Some(p) && p.bind_types.len() == 1,
    ensures
        runs(
            handled_execute(c, next_body(w, true)),
            prepared_under(c, w.insert_id@)->Some_0.stmt,
            next_key(w),
            seq![w.value@],
            false,
        ),
        runs(
            handled_execute(c, next_body(w, false)),
            prepared_under(c, w.select_id@)->Some_0.stmt,
            next_key(w),
            Seq::empty(),
            true,
        ),
{
    let key = be64(next_key(w));
    lemma_runs(c, w.insert_id@, next_key(w), seq![w.value@], false);
    lemma_runs(c, w.select_id@, next_key(w), Seq::empty(), true);
    assert(seq![key] + seq![w.value@] =~= seq![key, w.value@]);
    assert(seq![key] + Seq::<Seq<u8>>::empty() =~= seq![key]);
}

} // verus!
