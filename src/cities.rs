//! Loading city names from a delimited table, and sampling a bounded universe.

use crate::error::GenError;
use crate::random::shuffle_cities;
use rand::rngs::StdRng;
use vstd::prelude::*;

verus! {

/// The largest number of cities kept for drawing.
pub const MAX_CITIES: usize = 10000;

#[verifier::external_type_specification]
#[verifier::external_body]
pub struct ExCsvError(csv::Error);

/// The records of a delimited table, each as the bytes of its fields, or
/// `None` where the bytes do not form a table.
pub uninterp spec fn csv_table(data: Seq<u8>) -> Option<Seq<Seq<Seq<u8>>>>;

/// Relies on csv's `ReaderBuilder` with `has_headers(false)` and
/// `ByteRecordsIntoIter`: every record of `data`, the first one too, or the
/// first error. The outcome depends on the bytes alone.
#[verifier::external_body]
fn read_table(data: &[u8]) -> (r: Result<Vec<Vec<Vec<u8>>>, csv::Error>)
    ensures
        r is Ok <==> csv_table(data@) is Some,
        r matches Ok(t) ==> t.deep_view() == csv_table(data@)->0,
{
    csv::ReaderBuilder::new()
        .has_headers(false)
        .from_reader(data)
        .into_byte_records()
        .map(|rec| rec.map(|fields| fields.iter().map(|f| f.to_vec()).collect()))
        .collect()
}

/// The first field of every record that has one, in order.
pub open spec fn first_fields(table: Seq<Seq<Seq<u8>>>) -> Seq<Seq<u8>>
    decreases table.len(),
{
    if table.len() == 0 {
        seq![]
    } else {
        let rest = first_fields(table.drop_last());
        if table.last().len() == 0 {
            rest
        } else {
            rest.push(table.last()[0])
        }
    }
}

fn copy_bytes(b: &Vec<u8>) -> (r: Vec<u8>)
    ensures
        r@ == b@,
{
    let mut r: Vec<u8> = Vec::with_capacity(b.len());
    let mut i: usize = 0;
    while i < b.len()
        invariant
            i <= b@.len(),
            r@ == b@.subrange(0, i as int),
        decreases b@.len() - i,
    {
        r.push(b[i]);
        i = i + 1;
        assert(r@ =~= b@.subrange(0, i as int));
    }
    assert(b@.subrange(0, b@.len() as int) =~= b@);
    r
}

/// The city names of a parsed table: the first field of each record, records
/// without fields skipped.
pub fn cities_from_table(table: &Vec<Vec<Vec<u8>>>) -> (r: Vec<Vec<u8>>)
    ensures
        r.deep_view() == first_fields(table.deep_view()),
{
    let mut r: Vec<Vec<u8>> = Vec::new();
    let mut i: usize = 0;
    while i < table.len()
        invariant
            i <= table@.len(),
            r.deep_view() == first_fields(table.deep_view().subrange(0, i as int)),
        decreases table@.len() - i,
    {
        let ghost before = table.deep_view().subrange(0, i as int);
        let ghost after = table.deep_view().subrange(0, i + 1);
        assert(after.drop_last() =~= before);
        if table[i].len() > 0 {
            let name = copy_bytes(&table[i][0]);
            r.push(name);
            assert(r.deep_view() =~= first_fields(after));
        } else {
            assert(after.last() =~= seq![]);
        }
        i = i + 1;
    }
    assert(table.deep_view().subrange(0, table@.len() as int) =~= table.deep_view());
    r
}

/// Reads the city names of a delimited table given as bytes.
pub fn load_cities(data: &[u8]) -> (r: Result<Vec<Vec<u8>>, GenError>)
    ensures
        r is Ok <==> csv_table(data@) is Some,
        r matches Ok(c) ==> c.deep_view() == first_fields(csv_table(data@)->0),
        r matches Err(e) ==> e is Input,
{
    match read_table(data) {
        Ok(table) => Ok(cities_from_table(&table)),
        Err(e) => Err(GenError::Input(e)),
    }
}

/// The size of the universe sampled from `n` cities.
pub open spec fn sample_size(n: nat) -> nat {
    if n <= MAX_CITIES {
        n
    } else {
        MAX_CITIES as nat
    }
}

/// Shuffles the loaded cities uniformly at random and keeps at most
/// `MAX_CITIES` of them: all when there are no more, else exactly that many,
/// each taken from the input no more often than it occurs there.
pub fn sample_cities(cities: Vec<Vec<u8>>, rng: &mut StdRng) -> (r: Vec<Vec<u8>>)
    ensures
        r@.len() == sample_size(cities@.len()),
        r@.to_multiset().subset_of(cities@.to_multiset()),
        forall|c: Vec<u8>| #[trigger] r@.contains(c) ==> cities@.contains(c),
{
    let mut sample = cities;
    shuffle_cities(&mut sample, rng);
    let ghost shuffled = sample@;
    proof {
        broadcast use vstd::seq_lib::group_to_multiset_ensures;
        assert(shuffled.to_multiset().len() == cities@.to_multiset().len());
        assert(shuffled.len() == cities@.len());
    }
    if sample.len() > MAX_CITIES {
        sample.truncate(MAX_CITIES);
    }
    proof {
        broadcast use vstd::seq_lib::group_to_multiset_ensures;
        let k = sample@.len() as int;
        assert(shuffled =~= sample@ + shuffled.subrange(k, shuffled.len() as int));
        vstd::seq_lib::lemma_multiset_commutative(sample@, shuffled.subrange(k, shuffled.len() as int));
        assert forall|c: Vec<u8>| #[trigger] sample@.contains(c) implies cities@.contains(c) by {
            assert(sample@.to_multiset().count(c) > 0);
            assert(cities@.to_multiset().count(c) >= sample@.to_multiset().count(c));
        }
    }
    sample
}

} // verus!
