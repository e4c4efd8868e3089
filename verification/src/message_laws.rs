//! What messages tell: whoever reads one knows what it is about.
use crate::allocator;
use crate::allocator::AllocError;
use crate::assertions;
use crate::config::ConfigError;
use crate::error::FenceError;
use crate::layout::PoolGeometry;
use crate::metrics::PoolStats;
use crate::recovery::RecoveryReport;
use crate::report;
use crate::text;
use vstd::prelude::*;
use vstd::string::*;

verus! {

/// The number in a text that starts with `start` and goes on with `rest`.
proof fn lemma_one_number(start: Seq<char>, a: nat, rest: Seq<char>, b: nat, other: Seq<char>)
    requires
        rest.len() == 0 || !text::is_digit(rest[0]),
        other.len() == 0 || !text::is_digit(other[0]),
        start + text::decimal(a) + rest == start + text::decimal(b) + other,
    ensures
        a == b,
        rest == other,
{
    assert(start + text::decimal(a) + rest =~= start + (text::decimal(a) + rest));
    assert(start + text::decimal(b) + other =~= start + (text::decimal(b) + other));
    text::lemma_same_start(start, text::decimal(a) + rest, text::decimal(b) + other);
    text::lemma_number_ends(a, rest, b, other);
}

/// Both numbers in a text of two.
proof fn lemma_two_numbers(
    start: Seq<char>,
    a: nat,
    between: Seq<char>,
    b: nat,
    rest: Seq<char>,
    c: nat,
    d: nat,
    other: Seq<char>,
)
    requires
        between.len() > 0,
        !text::is_digit(between[0]),
        rest.len() == 0 || !text::is_digit(rest[0]),
        other.len() == 0 || !text::is_digit(other[0]),
        start + text::decimal(a) + between + text::decimal(b) + rest == start + text::decimal(c)
            + between + text::decimal(d) + other,
    ensures
        a == c,
        b == d,
        rest == other,
{
    let more = between + text::decimal(b) + rest;
    let others = between + text::decimal(d) + other;
    assert(start + text::decimal(a) + between + text::decimal(b) + rest =~= start + text::decimal(a)
        + more);
    assert(start + text::decimal(c) + between + text::decimal(d) + other =~= start
        + text::decimal(c) + others);
    lemma_one_number(start, a, more, c, others);
    lemma_one_number(between, b, rest, d, other);
}

/// Both numbers in a text of two in hexadecimal.
proof fn lemma_two_hex(start: Seq<char>, a: u64, between: Seq<char>, b: u64, c: u64, d: u64)
    requires
        start + text::hex(a as nat, 16) + between + text::hex(b as nat, 16) == start + text::hex(
            c as nat,
            16,
        ) + between + text::hex(d as nat, 16),
    ensures
        a == c,
        b == d,
{
    text::law_hex(a);
    text::law_hex(b);
    text::law_hex(c);
    text::law_hex(d);
    let s = start + text::hex(a as nat, 16) + between + text::hex(b as nat, 16);
    let n = start.len() as int;
    let k = n + 16 + between.len();
    assert(s.subrange(n, n + 16) =~= text::hex(a as nat, 16));
    assert(s.subrange(n, n + 16) =~= text::hex(c as nat, 16));
    assert(s.subrange(k, k + 16) =~= text::hex(b as nat, 16));
    assert(s.subrange(k, k + 16) =~= text::hex(d as nat, 16));
}

/// Two errors of the engine that are of the same kind and say the same.
pub open spec fn same_error(a: FenceError, b: FenceError) -> bool {
    match (a, b) {
        (
            FenceError::PoolFull { capacity, requested_slot },
            FenceError::PoolFull { capacity: c, requested_slot: s },
        ) => capacity == c && requested_slot == s,
        (
            FenceError::PayloadTooLarge { max, got },
            FenceError::PayloadTooLarge { max: m, got: n },
        ) => max == m && got == n,
        (FenceError::ChecksumMismatch { index }, FenceError::ChecksumMismatch { index: i }) => index
            == i,
        (FenceError::MmapFailed { detail }, FenceError::MmapFailed { detail: d }) => detail@ == d@,
        (
            FenceError::InvalidMagic { expected, actual },
            FenceError::InvalidMagic { expected: e, actual: f },
        ) => expected == e && actual == f,
        (FenceError::Io { detail }, FenceError::Io { detail: d }) => detail@ == d@,
        (
            FenceError::IndexOutOfBounds { index, committed_tail },
            FenceError::IndexOutOfBounds { index: i, committed_tail: t },
        ) => index == i && committed_tail == t,
        (
            FenceError::TrimBeyondCommitted { requested, committed_tail },
            FenceError::TrimBeyondCommitted { requested: r, committed_tail: t },
        ) => requested == r && committed_tail == t,
        _ => false,
    }
}

/// The message of an error tells the error: two errors have the same message exactly if they
/// are of the same kind and say the same.
pub proof fn law_error_message_tells(a: FenceError, b: FenceError)
    ensures
        a.message() == b.message() <==> same_error(a, b),
{
    lemma_error_starts(a);
    lemma_error_starts(b);
    reveal_strlit(", requested slot ");
    reveal_strlit(" bytes, got ");
    reveal_strlit(" out of bounds (committed_tail: ");
    reveal_strlit(")");
    reveal_strlit(" exceeds committed_tail ");
    let none = Seq::<char>::empty();
    if a.message() == b.message() {
        match (a, b) {
            (
                FenceError::PoolFull { capacity, requested_slot },
                FenceError::PoolFull { capacity: c, requested_slot: s },
            ) => {
                assert(a.message() + none =~= a.message());
                assert(b.message() + none =~= b.message());
                lemma_two_numbers(
                    "pool full: capacity "@,
                    capacity as nat,
                    ", requested slot "@,
                    requested_slot as nat,
                    none,
                    c as nat,
                    s as nat,
                    none,
                );
            },
            (
                FenceError::PayloadTooLarge { max, got },
                FenceError::PayloadTooLarge { max: m, got: n },
            ) => {
                assert(a.message() + none =~= a.message());
                assert(b.message() + none =~= b.message());
                lemma_two_numbers(
                    "payload too large: max "@,
                    max as nat,
                    " bytes, got "@,
                    got as nat,
                    none,
                    m as nat,
                    n as nat,
                    none,
                );
            },
            (FenceError::ChecksumMismatch { index }, FenceError::ChecksumMismatch { index: i }) => {
                assert(a.message() + none =~= a.message());
                assert(b.message() + none =~= b.message());
                lemma_one_number(
                    "checksum mismatch at index "@,
                    index as nat,
                    none,
                    i as nat,
                    none,
                );
            },
            (FenceError::MmapFailed { detail }, FenceError::MmapFailed { detail: d }) => {
                text::lemma_same_start("mmap failed: "@, detail@, d@);
            },
            (
                FenceError::InvalidMagic { expected, actual },
                FenceError::InvalidMagic { expected: e, actual: f },
            ) => {
                lemma_two_hex("invalid magic: expected 0x"@, expected, ", got 0x"@, actual, e, f);
            },
            (FenceError::Io { detail }, FenceError::Io { detail: d }) => {
                text::lemma_same_start("i/o error: "@, detail@, d@);
            },
            (
                FenceError::IndexOutOfBounds { index, committed_tail },
                FenceError::IndexOutOfBounds { index: i, committed_tail: t },
            ) => {
                lemma_two_numbers(
                    "index "@,
                    index as nat,
                    " out of bounds (committed_tail: "@,
                    committed_tail as nat,
                    ")"@,
                    i as nat,
                    t as nat,
                    ")"@,
                );
            },
            (
                FenceError::TrimBeyondCommitted { requested, committed_tail },
                FenceError::TrimBeyondCommitted { requested: r, committed_tail: t },
            ) => {
                assert(a.message() + none =~= a.message());
                assert(b.message() + none =~= b.message());
                lemma_two_numbers(
                    "trim to "@,
                    requested as nat,
                    " exceeds committed_tail "@,
                    committed_tail as nat,
                    none,
                    r as nat,
                    t as nat,
                    none,
                );
            },
            _ => {},
        }
    }
}

/// How the messages of the engine's errors start.
proof fn lemma_error_starts(error: FenceError)
    ensures
        error.message().len() > 4,
        match error {
            FenceError::PoolFull { .. } => error.message()[0] == 'p' && error.message()[1] == 'o',
            FenceError::PayloadTooLarge { .. } => error.message()[0] == 'p' && error.message()[1]
                == 'a',
            FenceError::ChecksumMismatch { .. } => error.message()[0] == 'c',
            FenceError::MmapFailed { .. } => error.message()[0] == 'm',
            FenceError::InvalidMagic { .. } => error.message()[0] == 'i' && error.message()[2]
                == 'v',
            FenceError::Io { .. } => error.message()[0] == 'i' && error.message()[2] == 'o',
            FenceError::IndexOutOfBounds { .. } => error.message()[0] == 'i' && error.message()[2]
                == 'd',
            FenceError::TrimBeyondCommitted { .. } => error.message()[0] == 't',
        },
{
    reveal_strlit("pool full: capacity ");
    reveal_strlit("payload too large: max ");
    reveal_strlit("checksum mismatch at index ");
    reveal_strlit("mmap failed: ");
    reveal_strlit("invalid magic: expected 0x");
    reveal_strlit("i/o error: ");
    reveal_strlit("index ");
    reveal_strlit("trim to ");
}

/// `part` stands at the start of `message`.
pub open spec fn starts(message: Seq<char>, part: Seq<char>) -> bool {
    part.len() <= message.len() && message.take(part.len() as int) == part
}

/// `part` stands at the end of `message`.
pub open spec fn ends(message: Seq<char>, part: Seq<char>) -> bool {
    part.len() <= message.len() && message.skip(message.len() - part.len()) == part
}

/// Which number comes first and which comes last in the message of an error of the engine.
pub proof fn law_error_message_order(error: FenceError)
    ensures
        match error {
            FenceError::PoolFull { capacity, requested_slot } => {
                &&& starts(error.message(), "pool full: capacity "@ + text::decimal(capacity as nat))
                &&& ends(error.message(), text::decimal(requested_slot as nat))
            },
            FenceError::PayloadTooLarge { max, got } => {
                &&& starts(error.message(), "payload too large: max "@ + text::decimal(max as nat))
                &&& ends(error.message(), text::decimal(got as nat))
            },
            FenceError::ChecksumMismatch { index } => ends(
                error.message(),
                text::decimal(index as nat),
            ),
            FenceError::MmapFailed { detail } => ends(error.message(), detail@),
            FenceError::InvalidMagic { expected, actual } => {
                &&& starts(
                    error.message(),
                    "invalid magic: expected 0x"@ + text::hex(expected as nat, 16),
                )
                &&& ends(error.message(), text::hex(actual as nat, 16))
            },
            FenceError::Io { detail } => ends(error.message(), detail@),
            FenceError::IndexOutOfBounds { index, committed_tail } => {
                &&& starts(error.message(), "index "@ + text::decimal(index as nat))
                &&& ends(error.message(), text::decimal(committed_tail as nat) + ")"@)
            },
            FenceError::TrimBeyondCommitted { requested, committed_tail } => {
                &&& starts(error.message(), "trim to "@ + text::decimal(requested as nat))
                &&& ends(error.message(), text::decimal(committed_tail as nat))
            },
        },
{
    let s = error.message();
    match error {
        FenceError::PoolFull { capacity, requested_slot } => {
            lemma_starts("pool full: capacity "@ + text::decimal(capacity as nat), s);
            lemma_ends(text::decimal(requested_slot as nat), s);
        },
        FenceError::PayloadTooLarge { max, got } => {
            lemma_starts("payload too large: max "@ + text::decimal(max as nat), s);
            lemma_ends(text::decimal(got as nat), s);
        },
        FenceError::ChecksumMismatch { index } => {
            lemma_ends(text::decimal(index as nat), s);
        },
        FenceError::MmapFailed { detail } => {
            lemma_ends(detail@, s);
        },
        FenceError::InvalidMagic { expected, actual } => {
            lemma_starts("invalid magic: expected 0x"@ + text::hex(expected as nat, 16), s);
            lemma_ends(text::hex(actual as nat, 16), s);
        },
        FenceError::Io { detail } => {
            lemma_ends(detail@, s);
        },
        FenceError::IndexOutOfBounds { index, committed_tail } => {
            lemma_starts("index "@ + text::decimal(index as nat), s);
            lemma_ends(text::decimal(committed_tail as nat) + ")"@, s);
        },
        FenceError::TrimBeyondCommitted { requested, committed_tail } => {
            lemma_starts("trim to "@ + text::decimal(requested as nat), s);
            lemma_ends(text::decimal(committed_tail as nat), s);
        },
    }
}

proof fn lemma_starts(part: Seq<char>, message: Seq<char>)
    requires
        part.len() <= message.len(),
        forall|i: int| 0 <= i < part.len() ==> part[i] == #[trigger] message[i],
    ensures
        starts(message, part),
{
    assert(message.take(part.len() as int) =~= part);
}

proof fn lemma_ends(part: Seq<char>, message: Seq<char>)
    requires
        part.len() <= message.len(),
        forall|i: int|
            0 <= i < part.len() ==> #[trigger] part[i] == message[message.len() - part.len() + i],
    ensures
        ends(message, part),
{
    assert(message.skip(message.len() - part.len()) =~= part);
}

/// Two errors of the allocator that are of the same kind and say the same.
pub open spec fn same_alloc_error(a: AllocError, b: AllocError) -> bool {
    match (a, b) {
        (AllocError::CatalogFull, AllocError::CatalogFull) => true,
        (AllocError::NameExists { name }, AllocError::NameExists { name: n }) => name@ == n@,
        (
            AllocError::OutOfSpace { requested, available },
            AllocError::OutOfSpace { requested: r, available: v },
        ) => requested == r && available == v,
        (AllocError::NotFound { name }, AllocError::NotFound { name: n }) => name@ == n@,
        (AllocError::InvalidState { detail }, AllocError::InvalidState { detail: d }) => detail@
            == d@,
        (AllocError::Backend(error), AllocError::Backend(e)) => same_error(error, e),
        _ => false,
    }
}

/// The message of an allocator's error tells the error: two errors have the same message
/// exactly if they are of the same kind and say the same. The message of a backend's error
/// ends with that error's own.
pub proof fn law_alloc_message_tells(a: AllocError, b: AllocError)
    ensures
        a.message() == b.message() <==> same_alloc_error(a, b),
        a matches AllocError::Backend(error) ==> ends(a.message(), error.message()),
        a matches AllocError::OutOfSpace { requested, available } ==> starts(
            a.message(),
            "out of space: requested "@ + text::decimal(requested as nat),
        ) && ends(a.message(), text::decimal(available as nat)),
{
    reveal_strlit("catalog full: max ");
    reveal_strlit("region '");
    reveal_strlit("' already exists");
    reveal_strlit("out of space: requested ");
    reveal_strlit(", available ");
    reveal_strlit("' not found");
    reveal_strlit("invalid allocator state: ");
    reveal_strlit("backend error: ");
    let none = Seq::<char>::empty();
    let s = a.message();
    match a {
        AllocError::Backend(error) => {
            lemma_ends(error.message(), s);
        },
        AllocError::OutOfSpace { requested, available } => {
            lemma_starts("out of space: requested "@ + text::decimal(requested as nat), s);
            lemma_ends(text::decimal(available as nat), s);
        },
        _ => {},
    }
    if a.message() == b.message() {
        match (a, b) {
            (AllocError::NameExists { name }, AllocError::NameExists { name: n }) => {
                lemma_enclosed("region '"@, name@, n@, "' already exists"@);
            },
            (
                AllocError::OutOfSpace { requested, available },
                AllocError::OutOfSpace { requested: r, available: v },
            ) => {
                assert(a.message() + none =~= a.message());
                assert(b.message() + none =~= b.message());
                lemma_two_numbers(
                    "out of space: requested "@,
                    requested as nat,
                    ", available "@,
                    available as nat,
                    none,
                    r as nat,
                    v as nat,
                    none,
                );
            },
            (AllocError::NotFound { name }, AllocError::NotFound { name: n }) => {
                lemma_enclosed("region '"@, name@, n@, "' not found"@);
            },
            (AllocError::InvalidState { detail }, AllocError::InvalidState { detail: d }) => {
                text::lemma_same_start("invalid allocator state: "@, detail@, d@);
            },
            (AllocError::Backend(error), AllocError::Backend(e)) => {
                text::lemma_same_start("backend error: "@, error.message(), e.message());
                law_error_message_tells(error, e);
            },
            (AllocError::NameExists { .. }, AllocError::NotFound { .. }) => {
                assert(s[s.len() - 1] == 's');
                assert(b.message()[b.message().len() - 1] == 'd');
            },
            (AllocError::NotFound { .. }, AllocError::NameExists { .. }) => {
                assert(s[s.len() - 1] == 'd');
                assert(b.message()[b.message().len() - 1] == 's');
            },
            _ => {
                assert(s[0] == b.message()[0]);
            },
        }
    } else if same_alloc_error(a, b) {
        match (a, b) {
            (AllocError::Backend(error), AllocError::Backend(e)) => {
                law_error_message_tells(error, e);
            },
            _ => {},
        }
    }
}

/// What stands between two fixed parts can be told.
proof fn lemma_enclosed(start: Seq<char>, a: Seq<char>, b: Seq<char>, end: Seq<char>)
    requires
        start + a + end == start + b + end,
    ensures
        a == b,
{
    let s = start + a + end;
    assert(s.len() == (start + b + end).len());
    assert(s.subrange(start.len() as int, s.len() - end.len()) =~= a);
    assert((start + b + end).subrange(start.len() as int, s.len() - end.len()) =~= b);
}

/// The message of a configuration error ends with what is wrong, and that of an invalid value
/// names the field before it.
pub proof fn law_config_message_tells(error: ConfigError)
    ensures
        match error {
            ConfigError::FileNotFound { path } => ends(error.message(), path@),
            ConfigError::ParseError { detail } => ends(error.message(), detail@),
            ConfigError::ValidationError { field, detail } => {
                &&& starts(error.message(), "invalid config: "@ + field@ + ": "@)
                &&& ends(error.message(), field@ + ": "@ + detail@)
            },
        },
{
    let s = error.message();
    match error {
        ConfigError::FileNotFound { path } => {
            lemma_ends(path@, s);
        },
        ConfigError::ParseError { detail } => {
            lemma_ends(detail@, s);
        },
        ConfigError::ValidationError { field, detail } => {
            lemma_starts("invalid config: "@ + field@ + ": "@, s);
            lemma_ends(field@ + ": "@ + detail@, s);
        },
    }
}

/// What a failed check says tells slot, expected state and state found; expected and actual
/// tail; the magic number found.
pub proof fn law_check_messages_tell(
    slot: u32,
    expected: u8,
    actual: u8,
    other_slot: u32,
    other_expected: u8,
    other_actual: u8,
)
    ensures
        assertions::state_message(slot, expected, actual) == assertions::state_message(
            other_slot,
            other_expected,
            other_actual,
        ) ==> slot == other_slot && expected == other_expected && actual == other_actual,
        starts(
            assertions::state_message(slot, expected, actual),
            "slot "@ + text::decimal(slot as nat),
        ),
        ends(assertions::state_message(slot, expected, actual), text::decimal(actual as nat)),
{
    reveal_strlit(": expected state ");
    reveal_strlit(", got ");
    let s = assertions::state_message(slot, expected, actual);
    let t = assertions::state_message(other_slot, other_expected, other_actual);
    lemma_starts("slot "@ + text::decimal(slot as nat), s);
    lemma_ends(text::decimal(actual as nat), s);
    if s == t {
        let more = ", got "@ + text::decimal(actual as nat);
        let others = ", got "@ + text::decimal(other_actual as nat);
        assert(s =~= "slot "@ + text::decimal(slot as nat) + ": expected state "@ + text::decimal(
            expected as nat,
        ) + more);
        assert(t =~= "slot "@ + text::decimal(other_slot as nat) + ": expected state "@
            + text::decimal(other_expected as nat) + others);
        lemma_two_numbers(
            "slot "@,
            slot as nat,
            ": expected state "@,
            expected as nat,
            more,
            other_slot as nat,
            other_expected as nat,
            others,
        );
        let none = Seq::<char>::empty();
        assert(more + none =~= more);
        assert(others + none =~= others);
        lemma_one_number(", got "@, actual as nat, none, other_actual as nat, none);
    }
}

/// What a failed check of a tail says tells which tail it is, what was expected and what was
/// found; what a failed check of the magic number says tells the number found.
pub proof fn law_tail_messages_tell(
    tail: Seq<char>,
    expected: u64,
    actual: u64,
    other_expected: u64,
    other_actual: u64,
)
    ensures
        assertions::tail_message(tail, expected, actual) == assertions::tail_message(
            tail,
            other_expected,
            other_actual,
        ) ==> expected == other_expected && actual == other_actual,
        starts(
            assertions::tail_message(tail, expected, actual),
            tail + ": expected "@ + text::decimal(expected as nat),
        ),
        ends(assertions::tail_message(tail, expected, actual), text::decimal(actual as nat)),
        assertions::magic_message(actual) == assertions::magic_message(other_actual) ==> actual
            == other_actual,
        ends(assertions::magic_message(actual), text::hex(actual as nat, 16)),
{
    reveal_strlit(": expected ");
    reveal_strlit(", got ");
    let s = assertions::tail_message(tail, expected, actual);
    let t = assertions::tail_message(tail, other_expected, other_actual);
    let none = Seq::<char>::empty();
    lemma_starts(tail + ": expected "@ + text::decimal(expected as nat), s);
    lemma_ends(text::decimal(actual as nat), s);
    lemma_ends(text::hex(actual as nat, 16), assertions::magic_message(actual));
    if s == t {
        assert(s + none =~= s);
        assert(t + none =~= t);
        lemma_two_numbers(
            tail + ": expected "@,
            expected as nat,
            ", got "@,
            actual as nat,
            none,
            other_expected as nat,
            other_actual as nat,
            none,
        );
    }
    if assertions::magic_message(actual) == assertions::magic_message(other_actual) {
        lemma_two_hex(
            "invalid magic: expected 0x"@,
            crate::layout::MAGIC,
            ", got 0x"@,
            actual,
            crate::layout::MAGIC,
            other_actual,
        );
    }
}

/// Somewhere in `message` stands `label`, and right behind it the number `n`, whole.
pub open spec fn shows(message: Seq<char>, label: Seq<char>, n: nat) -> bool {
    exists|at: int| #[trigger] shows_at(message, label, n, at)
}

/// `label` stands at `at` in `message`, and right behind it the number `n`, whole.
pub open spec fn shows_at(message: Seq<char>, label: Seq<char>, n: nat, at: int) -> bool {
    let start = at + label.len();
    let end = start + text::decimal(n).len();
    &&& 0 <= at
    &&& end <= message.len()
    &&& message.subrange(at, start) == label
    &&& message.subrange(start, end) == text::decimal(n)
    &&& end < message.len() ==> !text::is_digit(message[end])
}

/// A text that starts with `start` and goes on with labels and numbers in turn.
spec fn listed(start: Seq<char>, items: Seq<(Seq<char>, nat)>) -> Seq<char>
    decreases items.len(),
{
    if items.len() == 0 {
        start
    } else {
        listed(start, items.drop_last()) + items.last().0 + text::decimal(items.last().1)
    }
}

proof fn lemma_listed_next(start: Seq<char>, items: Seq<(Seq<char>, nat)>, n: int)
    requires
        0 <= n < items.len(),
    ensures
        listed(start, items.take(n + 1)) == listed(start, items.take(n)) + items[n].0
            + text::decimal(items[n].1),
        listed(start, items.take(0)) == start,
{
    assert(items.take(n + 1).drop_last() =~= items.take(n));
}

proof fn lemma_listed_starts(start: Seq<char>, items: Seq<(Seq<char>, nat)>)
    ensures
        starts(listed(start, items), start),
    decreases items.len(),
{
    let s = listed(start, items);
    if items.len() > 0 {
        let less = listed(start, items.drop_last());
        lemma_listed_starts(start, items.drop_last());
        assert(s.take(start.len() as int) =~= less.take(start.len() as int));
    } else {
        assert(s.take(start.len() as int) =~= s);
    }
}

/// Such a text shows every number behind its label.
proof fn lemma_listed_shows(start: Seq<char>, items: Seq<(Seq<char>, nat)>)
    requires
        forall|i: int|
            0 <= i < items.len() ==> (#[trigger] items[i]).0.len() > 0 && !text::is_digit(
                items[i].0[0],
            ),
    ensures
        forall|i: int|
            0 <= i < items.len() ==> shows(
                listed(start, items),
                (#[trigger] items[i]).0,
                items[i].1,
            ),
    decreases items.len(),
{
    if items.len() > 0 {
        let less = items.drop_last();
        let n = less.len() as int;
        assert forall|i: int| 0 <= i < less.len() implies (#[trigger] less[i]).0.len() > 0
            && !text::is_digit(less[i].0[0]) by {
            assert(less[i] == items[i]);
        }
        lemma_listed_shows(start, less);
        let before = listed(start, less);
        let (label, k) = items[n];
        assert forall|i: int| 0 <= i < items.len() implies shows(
            listed(start, items),
            (#[trigger] items[i]).0,
            items[i].1,
        ) by {
            if i < n {
                assert(less[i] == items[i]);
                lemma_shows_more(before, items[i].0, items[i].1, label + text::decimal(k));
                assert(before + (label + text::decimal(k)) =~= before + label + text::decimal(k));
            } else {
                lemma_shows_last(before, label, k);
            }
        }
    }
}

proof fn lemma_shows_last(before: Seq<char>, label: Seq<char>, n: nat)
    ensures
        shows(before + label + text::decimal(n), label, n),
{
    let s = before + label + text::decimal(n);
    let at = before.len() as int;
    let start = at + label.len();
    let end = start + text::decimal(n).len();
    assert(s.subrange(at, start) =~= label);
    assert(s.subrange(start, end) =~= text::decimal(n));
    assert(shows_at(s, label, n, at));
}

proof fn lemma_shows_more(message: Seq<char>, label: Seq<char>, n: nat, more: Seq<char>)
    requires
        shows(message, label, n),
        more.len() > 0,
        !text::is_digit(more[0]),
    ensures
        shows(message + more, label, n),
{
    let at = choose|at: int| #[trigger] shows_at(message, label, n, at);
    let s = message + more;
    let start = at + label.len();
    let end = start + text::decimal(n).len();
    assert(s.subrange(at, start) =~= message.subrange(at, start));
    assert(s.subrange(start, end) =~= message.subrange(start, end));
    assert(shows_at(s, label, n, at));
}

/// The status of a pool shows its path, both tails, the capacity and every counter, each behind
/// its own label.
pub proof fn law_status_shows(
    path: Seq<char>,
    committed_tail: u64,
    reserve_tail: u64,
    capacity: u32,
    stats: PoolStats,
)
    ensures
        ({
            let s = report::status_message(path, committed_tail, reserve_tail, capacity, stats);
            &&& starts(s, "pool: "@ + path)
            &&& shows(s, "\n  committed_tail: "@, committed_tail as nat)
            &&& shows(s, "\n  reserve_tail:   "@, reserve_tail as nat)
            &&& shows(s, "\n  capacity:       "@, capacity as nat)
            &&& shows(s, "\n  metrics:\n    appends_total:      "@, stats.appends_total as nat)
            &&& shows(s, "\n    appends_failed:     "@, stats.appends_failed as nat)
            &&& shows(s, "\n    bytes_written:      "@, stats.bytes_written as nat)
            &&& shows(s, "\n    reads_total:        "@, stats.reads_total as nat)
            &&& shows(s, "\n    checksum_failures:  "@, stats.checksum_failures as nat)
            &&& shows(s, "\n    recovery_runs:      "@, stats.recovery_runs as nat)
            &&& shows(s, "\n    abandoned_found:    "@, stats.abandoned_found as nat)
        }),
{
    reveal_strlit("\n  committed_tail: ");
    reveal_strlit("\n  reserve_tail:   ");
    reveal_strlit("\n  capacity:       ");
    reveal_strlit("\n  metrics:\n    appends_total:      ");
    reveal_strlit("\n    appends_failed:     ");
    reveal_strlit("\n    bytes_written:      ");
    reveal_strlit("\n    reads_total:        ");
    reveal_strlit("\n    checksum_failures:  ");
    reveal_strlit("\n    recovery_runs:      ");
    reveal_strlit("\n    abandoned_found:    ");
    let items = seq![
        ("\n  committed_tail: "@, committed_tail as nat),
        ("\n  reserve_tail:   "@, reserve_tail as nat),
        ("\n  capacity:       "@, capacity as nat),
        ("\n  metrics:\n    appends_total:      "@, stats.appends_total as nat),
        ("\n    appends_failed:     "@, stats.appends_failed as nat),
        ("\n    bytes_written:      "@, stats.bytes_written as nat),
        ("\n    reads_total:        "@, stats.reads_total as nat),
        ("\n    checksum_failures:  "@, stats.checksum_failures as nat),
        ("\n    recovery_runs:      "@, stats.recovery_runs as nat),
        ("\n    abandoned_found:    "@, stats.abandoned_found as nat),
    ];
    let start = "pool: "@ + path;
    assert(items.take(10) =~= items);
    lemma_listed_next(start, items, 0);
    lemma_listed_next(start, items, 1);
    lemma_listed_next(start, items, 2);
    lemma_listed_next(start, items, 3);
    lemma_listed_next(start, items, 4);
    lemma_listed_next(start, items, 5);
    lemma_listed_next(start, items, 6);
    lemma_listed_next(start, items, 7);
    lemma_listed_next(start, items, 8);
    lemma_listed_next(start, items, 9);
    assert forall|i: int| 0 <= i < items.len() implies (#[trigger] items[i]).0.len() > 0
        && !text::is_digit(items[i].0[0]) by {}
    lemma_listed_shows(start, items);
    let s = report::status_message(path, committed_tail, reserve_tail, capacity, stats);
    assert(s == listed(start, items));
    lemma_listed_starts(start, items);
    assert(shows(s, items[0].0, items[0].1));
    assert(shows(s, items[1].0, items[1].1));
    assert(shows(s, items[2].0, items[2].1));
    assert(shows(s, items[3].0, items[3].1));
    assert(shows(s, items[4].0, items[4].1));
    assert(shows(s, items[5].0, items[5].1));
    assert(shows(s, items[6].0, items[6].1));
    assert(shows(s, items[7].0, items[7].1));
    assert(shows(s, items[8].0, items[8].1));
    assert(shows(s, items[9].0, items[9].1));
}

/// What is said of a pool that was initialized shows its path and all its dimensions, each
/// behind its own label.
pub proof fn law_init_shows(path: Seq<char>, g: PoolGeometry)
    ensures
        ({
            let s = report::init_message(path, g);
            &&& starts(s, "pool initialized: "@ + path)
            &&& ends(s, " bytes"@)
            &&& shows(s, "\n  capacity:     "@, g.capacity as nat)
            &&& shows(s, "\n  payload_size: "@, g.payload_size as nat)
            &&& shows(s, "\n  max_hosts:    "@, g.max_hosts as nat)
            &&& shows(s, "\n  record_size:  "@, g.record_size as nat)
            &&& shows(s, "\n  total_size:   "@, g.total_size as nat)
        }),
{
    reveal_strlit("\n  capacity:     ");
    reveal_strlit("\n  payload_size: ");
    reveal_strlit("\n  max_hosts:    ");
    reveal_strlit("\n  record_size:  ");
    reveal_strlit("\n  total_size:   ");
    let items = seq![
        ("\n  capacity:     "@, g.capacity as nat),
        ("\n  payload_size: "@, g.payload_size as nat),
        ("\n  max_hosts:    "@, g.max_hosts as nat),
        ("\n  record_size:  "@, g.record_size as nat),
        ("\n  total_size:   "@, g.total_size as nat),
    ];
    let start = "pool initialized: "@ + path;
    assert(items.take(5) =~= items);
    lemma_listed_next(start, items, 0);
    lemma_listed_next(start, items, 1);
    lemma_listed_next(start, items, 2);
    lemma_listed_next(start, items, 3);
    lemma_listed_next(start, items, 4);
    assert forall|i: int| 0 <= i < items.len() implies (#[trigger] items[i]).0.len() > 0
        && !text::is_digit(items[i].0[0]) by {}
    lemma_listed_shows(start, items);
    reveal_strlit(" bytes");
    let s = report::init_message(path, g);
    let shown = listed(start, items);
    assert(s == shown + " bytes"@);
    lemma_listed_starts(start, items);
    lemma_ends(" bytes"@, s);
    assert(starts(s, start)) by {
        assert(s.take(start.len() as int) =~= shown.take(start.len() as int));
    }
    assert forall|i: int| 0 <= i < items.len() implies shows(
        s,
        (#[trigger] items[i]).0,
        items[i].1,
    ) by {
        lemma_shows_more(shown, items[i].0, items[i].1, " bytes"@);
    }
    assert(shows(s, items[0].0, items[0].1));
    assert(shows(s, items[1].0, items[1].1));
    assert(shows(s, items[2].0, items[2].1));
    assert(shows(s, items[3].0, items[3].1));
    assert(shows(s, items[4].0, items[4].1));
}

/// What is said of a recovery run shows how many slots were scanned, how many records were
/// abandoned, and the committed tail, each behind its own label.
pub proof fn law_recovery_shows(report: RecoveryReport)
    ensures
        ({
            let s = report::recovery_message(report);
            &&& shows(s, "recovery complete:\n  slots_scanned:   "@, report.slots_scanned as nat)
            &&& shows(s, "\n  abandoned_count: "@, report.abandoned_count as nat)
            &&& shows(s, "\n  committed_tail:  "@, report.committed_tail as nat)
        }),
{
    reveal_strlit("recovery complete:\n  slots_scanned:   ");
    reveal_strlit("\n  abandoned_count: ");
    reveal_strlit("\n  committed_tail:  ");
    let items = seq![
        ("recovery complete:\n  slots_scanned:   "@, report.slots_scanned as nat),
        ("\n  abandoned_count: "@, report.abandoned_count as nat),
        ("\n  committed_tail:  "@, report.committed_tail as nat),
    ];
    let start = Seq::<char>::empty();
    assert(items.take(3) =~= items);
    lemma_listed_next(start, items, 0);
    lemma_listed_next(start, items, 1);
    lemma_listed_next(start, items, 2);
    assert forall|i: int| 0 <= i < items.len() implies (#[trigger] items[i]).0.len() > 0
        && !text::is_digit(items[i].0[0]) by {}
    lemma_listed_shows(start, items);
    let s = report::recovery_message(report);
    assert(s =~= listed(start, items));
    assert(shows(s, items[0].0, items[0].1));
    assert(shows(s, items[1].0, items[1].1));
    assert(shows(s, items[2].0, items[2].1));
}

/// What an allocator says of a wrong magic number tells that number.
pub proof fn law_bad_magic_tells(magic: u64, other: u64)
    ensures
        ends(allocator::bad_magic(magic), text::hex(magic as nat, 16)),
        allocator::bad_magic(magic) == allocator::bad_magic(other) ==> magic == other,
{
    lemma_ends(text::hex(magic as nat, 16), allocator::bad_magic(magic));
    if allocator::bad_magic(magic) == allocator::bad_magic(other) {
        lemma_two_hex(
            "bad magic: expected 0x"@,
            crate::catalog::ALLOC_MAGIC,
            ", got 0x"@,
            magic,
            crate::catalog::ALLOC_MAGIC,
            other,
        );
    }
}

} // verus!
