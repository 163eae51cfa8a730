//! Values addressed by port name.
use crate::ir::{AssertionResult, Error, ImageDescriptor, Rect, ResourceDescriptor};
use crate::json::same_text;
use crate::value::{ResourceValue, ValueView};
use vstd::prelude::*;

verus! {

/// The values of an operation's ports.
#[derive(Debug, Clone)]
pub struct Ports<V> {
    entries: Vec<(String, V)>,
}

/// The port map that a list of insertions builds: of two with one name the later stays.
pub closed spec fn inserted<V>(entries: Seq<(String, V)>) -> Map<Seq<char>, V>
    decreases entries.len(),
{
    if entries.len() == 0 {
        Map::empty()
    } else {
        inserted(entries.drop_last()).insert(entries.last().0@, entries.last().1)
    }
}

impl<V> View for Ports<V> {
    type V = Map<Seq<char>, V>;

    closed spec fn view(&self) -> Map<Seq<char>, V> {
        inserted(self.entries@)
    }
}

impl<V> Ports<V> {
    /// No port.
    pub fn new() -> (ports: Self)
        ensures
            ports@ == Map::<Seq<char>, V>::empty(),
    {
        Ports { entries: Vec::new() }
    }

    /// Give port `name` the value, in place of an earlier one.
    pub fn insert(&mut self, name: String, value: V)
        ensures
            final(self)@ == old(self)@.insert(name@, value),
    {
        let ghost before = self.entries@;
        self.entries.push((name, value));
        assert(self.entries@.drop_last() =~= before);
    }

    /// The value of port `name`.
    pub fn get(&self, name: &str) -> (r: Option<&V>)
        ensures
            match r {
                Some(value) => self@.dom().contains(name@) && *value == self@[name@],
                None => !self@.dom().contains(name@),
            },
    {
        let mut i: usize = self.entries.len();
        assert(self.entries@.take(i as int) =~= self.entries@);
        while i > 0
            invariant
                i <= self.entries@.len(),
                self@.dom().contains(name@) == inserted(self.entries@.take(i as int)).dom().contains(
                    name@,
                ),
                self@.dom().contains(name@) ==> self@[name@] == inserted(
                    self.entries@.take(i as int),
                )[name@],
            decreases i,
        {
            i = i - 1;
            assert(self.entries@.take(i + 1).drop_last() =~= self.entries@.take(i as int));
            if same_text(self.entries[i].0.as_str(), name) {
                return Some(&self.entries[i].1);
            }
        }
        None
    }
}

/// The ports with exactly one value.
pub open spec fn single<V>(name: Seq<char>, value: V) -> Map<Seq<char>, V> {
    Map::empty().insert(name, value)
}

/// The result is the expected refusal, or ports that hold the expected value and nothing else.
pub open spec fn gives_port<V>(
    r: Result<Ports<V>, Error>,
    name: Seq<char>,
    expected: Result<V, Error>,
) -> bool {
    match (r, expected) {
        (Ok(ports), Ok(value)) => ports@ == single(name, value),
        (Err(e), Err(f)) => e == f,
        _ => false,
    }
}

/// The result is the expected refusal, or ports that hold the expected resource and nothing else.
pub open spec fn gives_value(
    r: Result<Ports<ResourceValue>, Error>,
    name: Seq<char>,
    expected: Result<ValueView, Error>,
) -> bool {
    match (r, expected) {
        (Ok(ports), Ok(value)) => {
            &&& ports@.dom() == Set::empty().insert(name)
            &&& ports@[name]@ == value
        },
        (Err(e), Err(f)) => e == f,
        _ => false,
    }
}

/// The result is the expected refusal, or ports that hold a value exactly when one is expected.
pub open spec fn gives_optional_port<V>(
    r: Result<Ports<V>, Error>,
    name: Seq<char>,
    expected: Result<Option<V>, Error>,
) -> bool {
    match (r, expected) {
        (Ok(ports), Ok(Some(value))) => ports@ == single(name, value),
        (Ok(ports), Ok(None)) => ports@ == Map::<Seq<char>, V>::empty(),
        (Err(e), Err(f)) => e == f,
        _ => false,
    }
}

/// The value of a port, if there is one.
pub open spec fn port<V>(ports: Map<Seq<char>, V>, name: Seq<char>) -> Option<V> {
    if ports.dom().contains(name) {
        Some(ports[name])
    } else {
        None
    }
}

/// The resource of a port, if there is one.
pub open spec fn port_view(ports: Map<Seq<char>, ResourceValue>, name: Seq<char>) -> Option<
    ValueView,
> {
    if ports.dom().contains(name) {
        Some(ports[name]@)
    } else {
        None
    }
}

/// Ports that hold one value.
pub fn one_port<V>(name: &str, value: V) -> (ports: Ports<V>)
    ensures
        ports@ == single(name@, value),
{
    let mut ports: Ports<V> = Ports::new();
    ports.insert(name.to_owned(), value);
    ports
}

/// The image that port `name` describes; `missing` where the port is absent, `wrong` where it holds
/// another kind.
pub open spec fn image_of(
    inputs: Map<Seq<char>, ResourceDescriptor>,
    name: Seq<char>,
    missing: Error,
    wrong: Error,
) -> Result<ImageDescriptor, Error> {
    match port(inputs, name) {
        None => Err(missing),
        Some(ResourceDescriptor::Image(d)) => Ok(d),
        Some(_) => Err(wrong),
    }
}

/// Take the image descriptor of a port.
pub fn image_port(
    inputs: &Ports<ResourceDescriptor>,
    name: &str,
    missing: Error,
    wrong: Error,
) -> (r: Result<ImageDescriptor, Error>)
    ensures
        r == image_of(inputs@, name@, missing, wrong),
{
    match inputs.get(name) {
        None => Err(missing),
        Some(d) => match d {
            ResourceDescriptor::Image(i) => Ok(*i),
            _ => Err(wrong),
        },
    }
}

/// The image that a port's resource is.
pub open spec fn image_value_of(
    inputs: Map<Seq<char>, ResourceValue>,
    name: Seq<char>,
    missing: Error,
    wrong: Error,
) -> Result<ImageDescriptor, Error> {
    match port_view(inputs, name) {
        None => Err(missing),
        Some(v) => match v.descriptor {
            ResourceDescriptor::Image(d) => Ok(d),
            _ => Err(wrong),
        },
    }
}

/// Take the image of a port with its descriptor.
pub fn image_value<'a>(
    inputs: &'a Ports<ResourceValue>,
    name: &str,
    missing: Error,
    wrong: Error,
) -> (r: Result<(&'a ResourceValue, ImageDescriptor), Error>)
    ensures
        match r {
            Ok((value, d)) => {
                &&& image_value_of(inputs@, name@, missing, wrong) == Ok::<ImageDescriptor, Error>(d)
                &&& inputs@.dom().contains(name@)
                &&& *value == inputs@[name@]
                &&& value@.descriptor == ResourceDescriptor::Image(d)
            },
            Err(e) => image_value_of(inputs@, name@, missing, wrong) == Err::<ImageDescriptor, Error>(e),
        },
{
    match inputs.get(name) {
        None => Err(missing),
        Some(value) => match value.descriptor() {
            ResourceDescriptor::Image(d) => Ok((value, d)),
            _ => Err(wrong),
        },
    }
}

/// Whether the `image` output is an image, as an operation reports it.
pub open spec fn image_outcome(outputs: Map<Seq<char>, ResourceDescriptor>) -> AssertionResult {
    if port(outputs, "image"@) matches Some(d) && d is Image {
        AssertionResult::pass("produces_image")
    } else {
        AssertionResult::fail("produces_image", "no `image` output produced")
    }
}

/// Report whether the `image` output is an image.
pub fn check_image_output(outputs: &Ports<ResourceDescriptor>) -> (r: AssertionResult)
    ensures
        r == image_outcome(outputs@),
{
    match outputs.get("image") {
        Some(ResourceDescriptor::Image(_)) => AssertionResult::pass("produces_image"),
        _ => AssertionResult::fail("produces_image", "no `image` output produced"),
    }
}

/// Regions with the whole of one input added, if there is such an input.
pub open spec fn with_whole(
    regions: Map<Seq<char>, Rect>,
    inputs: Map<Seq<char>, ResourceDescriptor>,
    name: Seq<char>,
) -> Map<Seq<char>, Rect> {
    match port(inputs, name) {
        None => regions,
        Some(d) => regions.insert(name, d.extent().region()),
    }
}

/// The whole of one input.
pub open spec fn whole_input(inputs: Map<Seq<char>, ResourceDescriptor>, name: Seq<char>) -> Map<
    Seq<char>,
    Rect,
> {
    with_whole(Map::empty(), inputs, name)
}

/// Add the whole of one input to regions, if there is such an input.
pub fn request_whole(regions: &mut Ports<Rect>, inputs: &Ports<ResourceDescriptor>, name: &str)
    ensures
        final(regions)@ == with_whole(old(regions)@, inputs@, name@),
{
    match inputs.get(name) {
        None => {},
        Some(d) => {
            regions.insert(name.to_owned(), d.extent().full_rect());
        },
    }
}

} // verus!
