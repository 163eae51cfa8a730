//! Readers shared by the operations' parameter parsers.
use crate::arithmetic::{lawful, narrow, narrow_of, Arithmetic};
use crate::binary::{finite, in_unit, is_finite, is_in_unit};
use crate::ir::{ColorRange, Detail, Error, ImageDescriptor};
use crate::json::{json_array, json_double, json_get, json_of, json_seq, Json};
use vstd::prelude::*;

verus! {

/// A result with its list taken as a sequence.
pub open spec fn seq_result(r: Result<Vec<u64>, Error>) -> Result<Seq<u64>, Error> {
    match r {
        Ok(v) => Ok(v@),
        Err(e) => Err(e),
    }
}

/// The items read as finite doubles; the first that is no number, or not finite, refuses the list.
pub open spec fn finite_numbers_of(items: Seq<Json>, not_number: Error, not_finite: Error) -> Result<
    Seq<u64>,
    Error,
>
    decreases items.len(),
{
    if items.len() == 0 {
        Ok(Seq::empty())
    } else {
        match finite_numbers_of(items.drop_last(), not_number, not_finite) {
            Err(e) => Err(e),
            Ok(numbers) => match items.last().as_double() {
                None => Err(not_number.about(Detail::Item { index: (items.len() - 1) as usize })),
                Some(bits) => if finite(bits) {
                    Ok(numbers.push(bits))
                } else {
                    Err(
                        not_finite.about(
                            Detail::NumberAt { index: (items.len() - 1) as usize, value: bits },
                        ),
                    )
                },
            },
        }
    }
}

/// An accepted list has one number per item, the item read as a finite double.
pub proof fn lemma_finite_numbers(items: Seq<Json>, not_number: Error, not_finite: Error)
    ensures
        finite_numbers_of(items, not_number, not_finite) matches Ok(numbers) ==> {
            &&& numbers.len() == items.len()
            &&& forall|i: int|
                0 <= i < items.len() ==> items[i].as_double() == Some(#[trigger] numbers[i]) && finite(
                    numbers[i],
                )
        },
        finite_numbers_of(items, not_number, not_finite) is Ok <==> forall|i: int|
            0 <= i < items.len() ==> ((#[trigger] items[i]).as_double() matches Some(bits) && finite(
                bits,
            )),
    decreases items.len(),
{
    if items.len() > 0 {
        lemma_finite_numbers(items.drop_last(), not_number, not_finite);
        assert forall|i: int| 0 <= i < items.len() - 1 implies items.drop_last()[i] == items[i] by {}
    }
}

/// A refused list stays refused when it goes on.
proof fn lemma_refused_prefix(items: Seq<Json>, n: int, not_number: Error, not_finite: Error)
    requires
        0 <= n <= items.len(),
        finite_numbers_of(items.take(n), not_number, not_finite) is Err,
    ensures
        finite_numbers_of(items, not_number, not_finite) == finite_numbers_of(
            items.take(n),
            not_number,
            not_finite,
        ),
    decreases items.len() - n,
{
    if n < items.len() {
        assert(items.take(n + 1).drop_last() =~= items.take(n));
        lemma_refused_prefix(items, n + 1, not_number, not_finite);
    } else {
        assert(items.take(n) =~= items);
    }
}

/// Read every item as a finite double.
pub fn finite_numbers(
    items: &Vec<serde_json::Value>,
    not_number: Error,
    not_finite: Error,
) -> (r: Result<Vec<u64>, Error>)
    ensures
        seq_result(r) == finite_numbers_of(json_seq(items@), not_number, not_finite),
{
    let ghost all = json_seq(items@);
    let mut out: Vec<u64> = Vec::new();
    let mut i: usize = 0;
    assert(all.take(0) =~= Seq::empty());
    while i < items.len()
        invariant
            i <= items@.len(),
            all == json_seq(items@),
            finite_numbers_of(all.take(i as int), not_number, not_finite) == Ok::<Seq<u64>, Error>(
                out@,
            ),
        decreases items@.len() - i,
    {
        assert(all.take(i + 1).drop_last() =~= all.take(i as int));
        assert(all.take(i + 1).last() == json_of(items@[i as int]));
        match json_double(&items[i]) {
            None => {
                proof {
                    lemma_refused_prefix(all, i + 1, not_number, not_finite);
                }
                return Err(not_number.about(Detail::Item { index: i }));
            },
            Some(bits) => {
                if !is_finite(bits) {
                    proof {
                        lemma_refused_prefix(all, i + 1, not_number, not_finite);
                    }
                    return Err(not_finite.about(Detail::NumberAt { index: i, value: bits }));
                }
                out.push(bits);
            },
        }
        i = i + 1;
    }
    assert(all.take(i as int) =~= all);
    Ok(out)
}

/// How the components of a colour are refused.
#[derive(Debug, Clone, Copy)]
pub struct ComponentErrors {
    pub not_number: Error,
    pub not_finite: Error,
    pub alpha_range: Error,
    pub color_range: Error,
}

/// Channel `index` of an image like this is alpha.
pub open spec fn is_alpha(d: ImageDescriptor, index: int) -> bool {
    d.layout.has_alpha() && index == d.layout.channel_count() - 1
}

/// Channel `index` of an image like this holds numbers in `[0, 1]`: alpha does, and every channel of
/// a display-referred image.
pub open spec fn is_bounded(d: ImageDescriptor, index: int) -> bool {
    is_alpha(d, index) || d.range == ColorRange::DisplayReferred
}

/// Component `index` of a colour for an image like this: a finite number, and one in `[0, 1]` where
/// the channel is bounded.
pub open spec fn component_of(item: Json, d: ImageDescriptor, index: int, errors: ComponentErrors) -> Result<
    u64,
    Error,
> {
    match item.as_double() {
        None => Err(errors.not_number.about(Detail::Item { index: index as usize })),
        Some(bits) => if !finite(bits) {
            Err(errors.not_finite.about(Detail::NumberAt { index: index as usize, value: bits }))
        } else if is_bounded(d, index) && !in_unit(bits) {
            let error = if is_alpha(d, index) {
                errors.alpha_range
            } else {
                errors.color_range
            };
            Err(error.about(Detail::NumberAt { index: index as usize, value: bits }))
        } else {
            Ok(bits)
        },
    }
}

/// The components of a colour; the first that is refused refuses the colour.
pub open spec fn components_of(items: Seq<Json>, d: ImageDescriptor, errors: ComponentErrors) -> Result<
    Seq<u64>,
    Error,
>
    decreases items.len(),
{
    if items.len() == 0 {
        Ok(Seq::empty())
    } else {
        match components_of(items.drop_last(), d, errors) {
            Err(e) => Err(e),
            Ok(numbers) => match component_of(items.last(), d, items.len() - 1, errors) {
                Err(e) => Err(e),
                Ok(bits) => Ok(numbers.push(bits)),
            },
        }
    }
}

/// Accepted components are one per item, each the item's accepted component.
pub proof fn lemma_components(items: Seq<Json>, d: ImageDescriptor, errors: ComponentErrors)
    ensures
        components_of(items, d, errors) matches Ok(numbers) ==> {
            &&& numbers.len() == items.len()
            &&& forall|i: int|
                0 <= i < items.len() ==> component_of(items[i], d, i, errors) == Ok::<u64, Error>(
                    #[trigger] numbers[i],
                )
        },
        components_of(items, d, errors) is Ok <==> forall|i: int|
            0 <= i < items.len() ==> component_of(#[trigger] items[i], d, i, errors) is Ok,
    decreases items.len(),
{
    if items.len() > 0 {
        lemma_components(items.drop_last(), d, errors);
        assert forall|i: int| 0 <= i < items.len() - 1 implies items.drop_last()[i] == items[i] by {}
    }
}

proof fn lemma_refused_components(items: Seq<Json>, n: int, d: ImageDescriptor, errors: ComponentErrors)
    requires
        0 <= n <= items.len(),
        components_of(items.take(n), d, errors) is Err,
    ensures
        components_of(items, d, errors) == components_of(items.take(n), d, errors),
    decreases items.len() - n,
{
    if n < items.len() {
        assert(items.take(n + 1).drop_last() =~= items.take(n));
        lemma_refused_components(items, n + 1, d, errors);
    } else {
        assert(items.take(n) =~= items);
    }
}

/// Read one component of a colour.
fn component(item: &serde_json::Value, d: ImageDescriptor, index: usize, errors: ComponentErrors) -> (r: Result<
    u64,
    Error,
>)
    ensures
        r == component_of(json_of(*item), d, index as int, errors),
{
    match json_double(item) {
        None => Err(errors.not_number.about(Detail::Item { index })),
        Some(bits) => {
            if !is_finite(bits) {
                return Err(errors.not_finite.about(Detail::NumberAt { index, value: bits }));
            }
            let alpha: bool = d.layout.has_alpha() && index == (d.layout.channel_count() - 1) as usize;
            let bounded: bool = alpha || d.range == ColorRange::DisplayReferred;
            if bounded && !is_in_unit(bits) {
                let error: Error = if alpha {
                    errors.alpha_range
                } else {
                    errors.color_range
                };
                return Err(error.about(Detail::NumberAt { index, value: bits }));
            }
            Ok(bits)
        },
    }
}

/// Read the components of a colour for an image like this.
pub fn components(items: &Vec<serde_json::Value>, d: ImageDescriptor, errors: ComponentErrors) -> (r: Result<
    Vec<u64>,
    Error,
>)
    ensures
        seq_result(r) == components_of(json_seq(items@), d, errors),
{
    let ghost all = json_seq(items@);
    let mut out: Vec<u64> = Vec::new();
    let mut i: usize = 0;
    assert(all.take(0) =~= Seq::empty());
    while i < items.len()
        invariant
            i <= items@.len(),
            all == json_seq(items@),
            components_of(all.take(i as int), d, errors) == Ok::<Seq<u64>, Error>(out@),
        decreases items@.len() - i,
    {
        assert(all.take(i + 1).drop_last() =~= all.take(i as int));
        assert(all.take(i + 1).last() == json_of(items@[i as int]));
        match component(&items[i], d, i, errors) {
            Err(e) => {
                proof {
                    lemma_refused_components(all, i + 1, d, errors);
                }
                return Err(e);
            },
            Ok(bits) => {
                out.push(bits);
            },
        }
        i = i + 1;
    }
    assert(all.take(i as int) =~= all);
    Ok(out)
}

/// Every number rounded to a sample.
pub open spec fn narrowed<A: Arithmetic>(numbers: Seq<u64>) -> Seq<u32> {
    Seq::new(numbers.len(), |i: int| narrow_of::<A>(numbers[i]))
}

/// Round every number to a sample.
pub fn narrow_all<A: Arithmetic>(numbers: &Vec<u64>) -> (r: Vec<u32>)
    requires
        lawful::<A>(),
    ensures
        r@ == narrowed::<A>(numbers@),
{
    let mut out: Vec<u32> = Vec::new();
    let mut i: usize = 0;
    while i < numbers.len()
        invariant
            lawful::<A>(),
            i <= numbers@.len(),
            out@.len() == i,
            forall|j: int| 0 <= j < i ==> #[trigger] out@[j] == narrow_of::<A>(numbers@[j]),
        decreases numbers@.len() - i,
    {
        out.push(narrow::<A>(numbers[i]));
        i = i + 1;
    }
    out
}

/// How a number is refused.
#[derive(Debug, Clone, Copy)]
pub struct NumberErrors {
    pub not_number: Error,
    pub not_finite: Error,
}

/// How a pair of numbers is refused.
#[derive(Debug, Clone, Copy)]
pub struct PairErrors {
    pub missing: Error,
    pub not_array: Error,
    pub count: Error,
    pub number: NumberErrors,
}

/// A value read as a finite double.
pub open spec fn number_in(value: Json, errors: NumberErrors) -> Result<u64, Error> {
    match value.as_double() {
        None => Err(errors.not_number),
        Some(bits) => if finite(bits) {
            Ok(bits)
        } else {
            Err(errors.not_finite)
        },
    }
}

/// The member `name` read as two finite doubles.
pub open spec fn pair_in(params: Json, name: Seq<char>, errors: PairErrors) -> Result<
    (u64, u64),
    Error,
> {
    match params.get(name) {
        None => Err(errors.missing),
        Some(v) => match v.as_array() {
            None => Err(errors.not_array),
            Some(items) => if items.len() != 2 {
                Err(errors.count)
            } else {
                match number_in(items[0], errors.number) {
                    Err(e) => Err(e),
                    Ok(x) => match number_in(items[1], errors.number) {
                        Err(e) => Err(e),
                        Ok(y) => Ok((x, y)),
                    },
                }
            },
        },
    }
}

/// Read a value as a finite double.
pub fn read_number(value: &serde_json::Value, errors: NumberErrors) -> (r: Result<u64, Error>)
    ensures
        r == number_in(json_of(*value), errors),
{
    match json_double(value) {
        None => Err(errors.not_number),
        Some(bits) => if is_finite(bits) {
            Ok(bits)
        } else {
            Err(errors.not_finite)
        },
    }
}

/// Read the member `name` as two finite doubles.
pub fn read_pair(params: &serde_json::Value, name: &str, errors: PairErrors) -> (r: Result<
    (u64, u64),
    Error,
>)
    ensures
        r == pair_in(json_of(*params), name@, errors),
{
    let value: &serde_json::Value = match json_get(params, name) {
        None => {
            return Err(errors.missing);
        },
        Some(value) => value,
    };
    let items: &Vec<serde_json::Value> = match json_array(value) {
        None => {
            return Err(errors.not_array);
        },
        Some(items) => items,
    };
    if items.len() != 2 {
        return Err(errors.count);
    }
    match read_number(&items[0], errors.number) {
        Err(e) => Err(e),
        Ok(x) => match read_number(&items[1], errors.number) {
            Err(e) => Err(e),
            Ok(y) => Ok((x, y)),
        },
    }
}

} // verus!
