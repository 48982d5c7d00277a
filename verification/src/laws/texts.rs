//! Decimal text and error messages, written out.

use vstd::prelude::*;

use crate::barrier::record;
use crate::barrier::record::Fault;
use crate::error::ErrorView;
use crate::store::container;
use crate::store::container::SnapshotFault;
use crate::text;

verus! {

/// The number that decimal digits write, most significant first.
pub open spec fn number_of(digits: Seq<char>) -> int
    decreases digits.len(),
{
    if digits.len() == 0 {
        0
    } else {
        number_of(digits.drop_last()) * 10 + (digits.last() as int - '0' as int)
    }
}

/// **Decimal text writes its number.** Read as decimal digits, behind a minus
/// sign for a negative one, it gives the number, and it has no leading zero.
pub proof fn law_decimal_writes_its_number(i: int)
    ensures
        i >= 0 ==> number_of(text::decimal(i)) == i,
        i >= 0 ==> forall|k: int|
            0 <= k < text::decimal(i).len() ==> '0' <= #[trigger] text::decimal(i)[k] <= '9',
        i > 0 ==> text::decimal(i)[0] != '0',
        text::decimal(0) == seq!['0'],
        i < 0 ==> text::decimal(i) == seq!['-'] + text::decimal(-i),
        text::decimal(i).len() >= 1,
{
    if i >= 0 {
        lemma_digits(i as nat);
    } else {
        lemma_digits((-i) as nat);
    }
}

proof fn lemma_digits(n: nat)
    ensures
        text::digits(n).len() >= 1,
        number_of(text::digits(n)) == n,
        forall|k: int|
            0 <= k < text::digits(n).len() ==> '0' <= #[trigger] text::digits(n)[k] <= '9',
        n > 0 ==> text::digits(n)[0] != '0',
    decreases n,
{
    if n >= 10 {
        lemma_digits(n / 10);
        assert(text::digits(n).drop_last() =~= text::digits(n / 10));
        assert(text::digits(n).last() == text::digit(n % 10));
    } else {
        assert(text::digits(n).drop_last() =~= Seq::empty());
        assert(text::digits(n).last() == text::digit(n));
        assert(number_of(Seq::empty()) == 0);
    }
}

/// **Each fault of a record has its message.**
pub proof fn law_record_faults_read_as_they_should(part: Seq<char>, a: i16, b: i32, c: i8)
    ensures
        record::fault_text(part, Fault::Truncated) == "truncated barrier state "@ + part,
        record::fault_text(part, Fault::Trailing) == "trailing bytes in barrier state "@ + part,
        record::fault_text(part, Fault::KeyVersion(a)) == "unsupported barrier state key version "@
            + text::decimal(a as int),
        record::fault_text(part, Fault::ValueVersion(a))
            == "unsupported barrier state cut value version "@ + text::decimal(a as int),
        record::fault_text(part, Fault::NegativeString(a)) == "negative string length "@
            + text::decimal(a as int) + " in barrier state "@ + part,
        record::fault_text(part, Fault::NotUtf8) == "non-UTF-8 string in barrier state "@ + part,
        record::fault_text(part, Fault::NegativeCount(b)) == "negative array length "@
            + text::decimal(b as int) + " in barrier state "@ + part,
        record::fault_text(part, Fault::UnknownStatus(c)) == "unknown barrier cut status "@
            + text::decimal(c as int),
        record::KEY_PART@ == "key"@,
        record::VALUE_PART@ == "cut value"@,
{
}

/// **A fault is reported with its part and its message.**
pub proof fn law_record_faults_are_reported(part: Seq<char>, fault: Fault)
    ensures
        record::fault_error(part, fault) == (ErrorView::BarrierFormat {
            part,
            message: record::fault_text(part, fault),
        }),
{
}

/// **Each fault of a snapshot has its message.**
pub proof fn law_snapshot_faults_read_as_they_should(v: u32)
    ensures
        container::fault_error(SnapshotFault::Truncated) == ErrorView::Snapshot(
            "truncated state snapshot"@,
        ),
        container::fault_error(SnapshotFault::Trailing) == ErrorView::Snapshot(
            "trailing bytes in state snapshot"@,
        ),
        container::fault_error(SnapshotFault::ContainerVersion(v)) == ErrorView::Snapshot(
            "unsupported state snapshot version "@ + text::decimal(v as int),
        ),
        container::fault_error(SnapshotFault::StoreVersion(v)) == ErrorView::Snapshot(
            "unsupported store snapshot version "@ + text::decimal(v as int),
        ),
        container::fault_error(SnapshotFault::NotUtf8) == ErrorView::Snapshot(
            "non-UTF-8 store name"@,
        ),
{
}

/// **An error reads as one line.**
pub proof fn law_errors_read_as_they_should(part: Seq<char>, message: Seq<char>)
    ensures
        (ErrorView::BarrierFormat { part, message }).text() == "malformed barrier state "@ + part
            + ": "@ + message,
        ErrorView::Snapshot(message).text() == "state snapshot error: "@ + message,
{
}

} // verus!
