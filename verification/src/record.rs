//! Record-splitting glue: locates the key and value fields of one raw
//! record, decodes the value, and folds it into the aggregation table.
//!
//! A record is well-formed when exactly one `;` byte splits it into a
//! key field and a value field; a trailing newline byte on the value
//! field is ignored. Failures are local to the record: the caller is
//! free to skip the record and continue, the documented default policy.

use vstd::prelude::*;

verus! {

use crate::decode::parse_float_as_ints;
use crate::decode::token_value;
use crate::decode::valid_token;
use crate::decode::DecodeError;
use crate::table::AggTable;
use crate::MAX_OBSERVATIONS;

/// Why one record contributed nothing to the run.
#[derive(Clone, Copy, PartialEq, Eq, Structural, Debug)]
pub enum RecordError {
    /// The record does not split into exactly two fields on the `;`
    /// delimiter.
    Malformed,
    /// The value field matches no supported token shape.
    Decode(DecodeError),
}

/// Exactly one `;` byte (byte `59`) occurs in the record, so it splits
/// into exactly two fields.
pub open spec fn splits_in_two(line: Seq<u8>) -> bool {
    exists|i: int|
        0 <= i < line.len() && (#[trigger] line[i]) == 59 && (forall|j: int|
            0 <= j < line.len() && j != i ==> line[j] != 59)
}

/// The position of the delimiter (unique when the record splits in
/// two).
pub open spec fn semi_pos(line: Seq<u8>) -> int {
    choose|i: int| 0 <= i < line.len() && (#[trigger] line[i]) == 59
}

/// The key field: everything before the delimiter.
pub open spec fn key_part(line: Seq<u8>) -> Seq<u8> {
    line.take(semi_pos(line))
}

/// The value field: everything after the delimiter, with one trailing
/// newline byte (byte `10`) stripped if present.
pub open spec fn value_part(line: Seq<u8>) -> Seq<u8> {
    let v = line.skip(semi_pos(line) + 1);
    if v.len() > 0 && v[v.len() - 1] == 10 {
        v.drop_last()
    } else {
        v
    }
}

/// A record with two delimiter positions does not split in two.
proof fn lemma_two_semis_not_split(line: Seq<u8>, p: int, q: int)
    requires
        0 <= p < q < line.len(),
        line[p] == 59,
        line[q] == 59,
    ensures
        !splits_in_two(line),
{
    if splits_in_two(line) {
        let w = choose|i: int|
            0 <= i < line.len() && (#[trigger] line[i]) == 59 && (forall|j: int|
                0 <= j < line.len() && j != i ==> line[j] != 59);
        if w != p {
            assert(line[p] != 59);
        } else {
            assert(line[q] != 59);
        }
        assert(false);
    }
}

/// A record with a single delimiter position splits in two, there.
proof fn lemma_unique_semi(line: Seq<u8>, s: int)
    requires
        0 <= s < line.len(),
        line[s] == 59,
        forall|j: int| 0 <= j < line.len() && j != s ==> line[j] != 59,
    ensures
        splits_in_two(line),
        semi_pos(line) == s,
{
    assert(splits_in_two(line));
    let p = semi_pos(line);
    assert(line[p] == 59);
}

/// Processes one raw record: splits it on the `;` delimiter, decodes
/// the value field, and folds the decoded value into the entry for the
/// key field. A record that does not split into exactly two fields, or
/// whose value field does not decode, is rejected and leaves the table
/// exactly as it was.
pub fn process_line(line: &[u8], city_temps: &mut AggTable) -> (r: Result<(), RecordError>)
    requires
        old(city_temps).wf(),
        old(city_temps).total < MAX_OBSERVATIONS,
    ensures
        final(city_temps).wf(),
        !splits_in_two(line@) ==> r == Err::<(), RecordError>(RecordError::Malformed)
            && *final(city_temps) == *old(city_temps),
        splits_in_two(line@) && !valid_token(value_part(line@)) ==> r == Err::<(
        ), RecordError>(RecordError::Decode(DecodeError)) && *final(city_temps)
            == *old(city_temps),
        splits_in_two(line@) && valid_token(value_part(line@)) ==> {
            &&& r == Ok::<(), RecordError>(())
            &&& final(city_temps).total == old(city_temps).total + 1
            &&& forall|k: Seq<u8>|
                #[trigger] final(city_temps).contains_key(k) <==> (old(city_temps).contains_key(k)
                    || k == key_part(line@))
            &&& final(city_temps).obs_of(key_part(line@)) == old(city_temps).obs_of(
                key_part(line@),
            ).push(token_value(value_part(line@)))
            &&& forall|k: Seq<u8>|
                k != key_part(line@) ==> #[trigger] final(city_temps).obs_of(k)
                    == old(city_temps).obs_of(k)
        },
{
    let n = line.len();
    let mut i: usize = 0;
    let mut semi: usize = n;
    while i < n
        invariant
            *city_temps == *old(city_temps),
            old(city_temps).wf(),
            i <= n,
            n == line@.len(),
            semi <= n,
            semi == n ==> forall|j: int| 0 <= j < i ==> line@[j] != 59,
            semi < n ==> line@[semi as int] == 59 && semi < i && (forall|j: int|
                0 <= j < i && j != semi ==> line@[j] != 59),
        decreases n - i,
    {
        if line[i] == 59 {
            if semi < n {
                proof {
                    lemma_two_semis_not_split(line@, semi as int, i as int);
                }
                return Err(RecordError::Malformed);
            }
            semi = i;
        }
        i = i + 1;
    }
    if semi == n {
        proof {
            if splits_in_two(line@) {
                let w = choose|ii: int|
                    0 <= ii < line@.len() && (#[trigger] line@[ii]) == 59 && (forall|j: int|
                        0 <= j < line@.len() && j != ii ==> line@[j] != 59);
                assert(line@[w] != 59);
            }
        }
        return Err(RecordError::Malformed);
    }
    proof {
        lemma_unique_semi(line@, semi as int);
    }
    let keyb = vstd::slice::slice_subrange(line, 0, semi);
    let valraw = vstd::slice::slice_subrange(line, semi + 1, n);
    let stripped = if valraw.len() > 0 && valraw[valraw.len() - 1] == 10 {
        vstd::slice::slice_subrange(valraw, 0, valraw.len() - 1)
    } else {
        valraw
    };
    proof {
        assert(keyb@ =~= key_part(line@));
        assert(stripped@ =~= value_part(line@));
    }
    match parse_float_as_ints(stripped) {
        Ok(v) => {
            city_temps.observe(keyb, v);
            proof {
                assert(v as int == token_value(value_part(line@)));
            }
            Ok(())
        },
        Err(e) => Err(RecordError::Decode(e)),
    }
}

} // verus!
