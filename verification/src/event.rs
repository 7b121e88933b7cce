//! Where a change of the scoreboard comes from, and how it is flagged.
use vstd::prelude::*;
use std::sync::Arc;

verus! {

/// The origin of a change.
pub trait Source {
    /// The change was made by the scoreboard itself.
    fn is_internal(&self) -> bool;

    /// The change was read from a file.
    fn is_file(&self) -> bool;
}

/// The known origins of a change.
pub enum SourceEnum {
    WS,
    AutoSave,
    JSON,
    InverseReference,
    Copy,
    Recalculate,
    Unlink,
    Renumber,
    Other,
    AnyInternal,
    AnyFile,
    NonWS,
}

impl SourceEnum {
    /// The internal origins: every one but `WS`, `AutoSave`, `JSON` and `AnyFile`.
    pub open spec fn spec_is_internal(&self) -> bool {
        match self {
            SourceEnum::WS | SourceEnum::AutoSave | SourceEnum::JSON | SourceEnum::AnyFile => false,
            _ => true,
        }
    }

    /// The file origins: `AutoSave`, `JSON`, `AnyFile` and `NonWS`.
    pub open spec fn spec_is_file(&self) -> bool {
        match self {
            SourceEnum::AutoSave | SourceEnum::JSON | SourceEnum::AnyFile | SourceEnum::NonWS => true,
            _ => false,
        }
    }
}

impl Source for SourceEnum {
    fn is_internal(&self) -> (r: bool)
        ensures
            r == self.spec_is_internal(),
    {
        match self {
            SourceEnum::WS => false,
            SourceEnum::AutoSave => false,
            SourceEnum::JSON => false,
            SourceEnum::InverseReference => true,
            SourceEnum::Copy => true,
            SourceEnum::Recalculate => true,
            SourceEnum::Unlink => true,
            SourceEnum::Renumber => true,
            SourceEnum::Other => true,
            SourceEnum::AnyInternal => true,
            SourceEnum::AnyFile => false,
            SourceEnum::NonWS => true,
        }
    }

    fn is_file(&self) -> (r: bool)
        ensures
            r == self.spec_is_file(),
    {
        match self {
            SourceEnum::WS => false,
            SourceEnum::AutoSave => true,
            SourceEnum::JSON => true,
            SourceEnum::InverseReference => false,
            SourceEnum::Copy => false,
            SourceEnum::Recalculate => false,
            SourceEnum::Unlink => false,
            SourceEnum::Renumber => false,
            SourceEnum::Other => false,
            SourceEnum::AnyInternal => false,
            SourceEnum::AnyFile => true,
            SourceEnum::NonWS => true,
        }
    }
}

/// An origin given by its two answers: whether it is internal, whether it is a file.
pub struct SourceInstance(pub bool, pub bool);

impl Source for SourceInstance {
    fn is_internal(&self) -> (r: bool)
        ensures
            r == self.0,
    {
        self.0
    }

    fn is_file(&self) -> (r: bool)
        ensures
            r == self.1,
    {
        self.1
    }
}

/// How a change is to be handled.
pub enum Flag {
    Change,
    Reset,
    SpecialCase,
}

/// Something that is told of changes.
pub trait EventListener {
}

/// An element that can be referenced from elsewhere by its id.
pub trait ValueWithId {
    /// Identifies the element among all elements of its type (typically a UUID).
    fn get_id(&self) -> String;

    /// The JSON text that stands for the element's value (for complex types usually
    /// its id).
    fn get_value(&self) -> String;
}

/// A property of a scoreboard element, named by its JSON name. A `Child` property
/// holds a shared element of type `C`.
#[allow(inconsistent_fields)]
pub enum Property<T, C> {
    Value { json_name: String, value: T },
    Child { json_name: String, value: Arc<C> },
    Command { json_name: String, value: bool },
}

impl<T, C> Property<T, C> {
    /// The JSON name of the property.
    pub open spec fn spec_json_name(&self) -> Seq<char> {
        match self {
            Property::Value { json_name, .. } => json_name@,
            Property::Child { json_name, .. } => json_name@,
            Property::Command { json_name, .. } => json_name@,
        }
    }

    /// Two properties are equal when they are of the same kind with the same JSON name.
    pub open spec fn same_property(&self, other: &Property<T, C>) -> bool {
        &&& (self is Value && other is Value) || (self is Child && other is Child) || (
        self is Command && other is Command)
        &&& self.spec_json_name() == other.spec_json_name()
    }

    /// The JSON name of the property.
    pub fn get_json_name(&self) -> (r: String)
        ensures
            r@ == self.spec_json_name(),
    {
        match self {
            Property::Value { json_name, .. } => json_name.clone(),
            Property::Child { json_name, .. } => json_name.clone(),
            Property::Command { json_name, .. } => json_name.clone(),
        }
    }

    /// The text of the property: its JSON name.
    pub fn to_string(&self) -> (r: String)
        ensures
            r@ == self.spec_json_name(),
    {
        self.get_json_name()
    }
}

impl<T: Clone, C> Clone for Property<T, C> {
    /// A copy of the property: the same kind and JSON name; a `Child` shares the same
    /// element, a `Command` has the same flag, and a `Value` holds a clone of the value.
    fn clone(&self) -> (r: Self)
        ensures
            r.same_property(self),
            self is Child ==> r is Child && r->Child_value == self->Child_value,
            self is Command ==> r is Command && r->Command_value == self->Command_value,
            self is Value ==> r is Value && cloned::<T>(self->Value_value, r->Value_value),
    {
        match self {
            Property::Value { json_name, value } => Property::Value {
                json_name: json_name.clone(),
                value: value.clone(),
            },
            Property::Child { json_name, value } => Property::Child {
                json_name: json_name.clone(),
                value: Arc::clone(value),
            },
            Property::Command { json_name, value } => Property::Command {
                json_name: json_name.clone(),
                value: *value,
            },
        }
    }
}

impl<T, C> PartialEq for Property<T, C> {
    fn eq(&self, other: &Self) -> (r: bool) {
        let same_kind = match (self, other) {
            (Property::Value { .. }, Property::Value { .. }) => true,
            (Property::Child { .. }, Property::Child { .. }) => true,
            (Property::Command { .. }, Property::Command { .. }) => true,
            _ => false,
        };
        if !same_kind {
            return false;
        }
        let name = self.get_json_name();
        let other_name = other.get_json_name();
        name == other_name
    }
}

impl<T, C> vstd::std_specs::cmp::PartialEqSpecImpl for Property<T, C> {
    open spec fn obeys_eq_spec() -> bool {
        true
    }

    open spec fn eq_spec(&self, other: &Property<T, C>) -> bool {
        self.same_property(other)
    }
}

impl<T, C> Eq for Property<T, C> {
}

/// Something that is told of changes of the scoreboard.
pub trait ScoreBoardListener<T>: EventListener {
    fn score_board_change<P, C>(&self, event: ScoreBoardEvent<T, P, C>);
}

/// An element of the scoreboard that emits change events.
pub trait ScoreBoardEventProvider<T>: ValueWithId {
    /// The element that this element is a child of.
    type Parent;

    /// The path component under which this element is a child of its parent.
    fn get_provider_name(&self) -> String;

    /// The class or interface that event receivers access this element through.
    fn get_provider_class(&self) -> String;

    /// Identifies this element among its siblings (a number or a UUID).
    fn get_provider_id(&self) -> String;

    fn get_parent(&self) -> Option<Arc<Self::Parent>>;

    fn is_ancestor_of<O: ValueWithId>(&self, other: Arc<O>);

    fn delete(&self);

    fn delete_source<S: Source>(&self, source: &S);

    fn add_scoreboard_listener<L: ScoreBoardListener<T>>(&self, listener: &L);

    fn remove_scoreboard_listener<L: ScoreBoardListener<T>>(&self, listener: &L);
}

/// Access to the properties of an element by JSON name.
pub trait ScoreBoardEventProviderProperties {
    fn get_properties<T, C>(&self) -> Vec<Property<T, C>>;

    fn get_property<T, C>(&self, json_name: String) -> Option<Property<T, C>>;
}

/// An element that is one of a numbered sequence of siblings.
pub trait OrderedScoreBoardEventProvider<T>: ScoreBoardEventProvider<T> {
    fn get_number(&self) -> i64;

    fn get_previous(&self) -> T;

    fn has_previous(&self) -> bool;

    fn set_previous(&self, prev: T);

    fn get_next(&self) -> T;

    fn has_next(&self) -> bool;

    fn set_next(&self, next: T);
}

/// A change of a property of an element: the element that emitted it (of type `P`),
/// the property, the new value and the previous one, and whether it removes the
/// value.
pub struct ScoreBoardEvent<T, P, C> {
    provider: Arc<P>,
    property: Property<T, C>,
    value: Option<T>,
    previous_value: Option<T>,
    remove: bool,
}

impl<T, P, C> ScoreBoardEvent<T, P, C> {
    pub closed spec fn spec_provider(&self) -> Arc<P> {
        self.provider
    }

    pub closed spec fn spec_property(&self) -> Property<T, C> {
        self.property
    }

    pub closed spec fn spec_value(&self) -> Option<T> {
        self.value
    }

    pub closed spec fn spec_previous_value(&self) -> Option<T> {
        self.previous_value
    }

    pub closed spec fn spec_remove(&self) -> bool {
        self.remove
    }

    /// An event that changes `property` of `event_provider` from `prev` to `value`.
    pub fn new(
        event_provider: Arc<P>,
        property: Property<T, C>,
        value: Option<T>,
        prev: Option<T>,
    ) -> (r: Self)
        ensures
            r.spec_provider() == event_provider,
            r.spec_property() == property,
            r.spec_value() == value,
            r.spec_previous_value() == prev,
            !r.spec_remove(),
    {
        ScoreBoardEvent {
            provider: event_provider,
            property,
            value,
            previous_value: prev,
            remove: false,
        }
    }

    /// An event with no previous value, marked as a removal when `remove` is set.
    pub fn new_with_remove(
        event_provider: Arc<P>,
        property: Property<T, C>,
        value: Option<T>,
        remove: bool,
    ) -> (r: Self)
        ensures
            r.spec_provider() == event_provider,
            r.spec_property() == property,
            r.spec_value() == value,
            r.spec_previous_value() is None,
            r.spec_remove() == remove,
    {
        ScoreBoardEvent { provider: event_provider, property, value, previous_value: None, remove }
    }

    /// The element that emitted the event (a shared handle to it).
    pub fn get_provider(&self) -> (r: Arc<P>)
        ensures
            r == self.spec_provider(),
    {
        Arc::clone(&self.provider)
    }

    /// Whether the event removes the value.
    pub fn is_remove(&self) -> (r: bool)
        ensures
            r == self.spec_remove(),
    {
        self.remove
    }
}

impl<T: Clone, P, C> ScoreBoardEvent<T, P, C> {
    /// A copy of the property that changed (see [`Property::clone`]).
    pub fn get_property(&self) -> (r: Property<T, C>)
        ensures
            r.same_property(&self.spec_property()),
            self.spec_property() is Child ==> r is Child && r->Child_value
                == self.spec_property()->Child_value,
            self.spec_property() is Command ==> r is Command && r->Command_value
                == self.spec_property()->Command_value,
            self.spec_property() is Value ==> r is Value && cloned::<T>(
                self.spec_property()->Value_value,
                r->Value_value,
            ),
    {
        self.property.clone()
    }

    /// A copy of the new value.
    pub fn get_value(&self) -> (r: Option<T>)
        ensures
            r is Some <==> self.spec_value() is Some,
            r is Some ==> cloned::<T>(self.spec_value()->0, r->0),
    {
        self.value.clone()
    }

    /// A copy of the previous value.
    pub fn get_previous_value(&self) -> (r: Option<T>)
        ensures
            r is Some <==> self.spec_previous_value() is Some,
            r is Some ==> cloned::<T>(self.spec_previous_value()->0, r->0),
    {
        self.previous_value.clone()
    }
}

/// Whether two events are equal, given the names their providers report and their
/// properties: the names must be the same and the properties equal (see
/// [`Property::same_property`]); the values play no part.
pub fn same_event<T, C>(
    provider_name: &String,
    property: &Property<T, C>,
    other_provider_name: &String,
    other_property: &Property<T, C>,
) -> (r: bool)
    ensures
        r == (provider_name@ == other_provider_name@ && property.same_property(other_property)),
{
    if *provider_name != *other_provider_name {
        return false;
    }
    if *property != *other_property {
        return false;
    }
    true
}

impl<T, P: ScoreBoardEventProvider<T>, C> PartialEq for ScoreBoardEvent<T, P, C> {
    fn eq(&self, other: &Self) -> (r: bool) {
        let name = self.provider.get_provider_name();
        let other_name = other.provider.get_provider_name();
        same_event(&name, &self.property, &other_name, &other.property)
    }
}

impl<T, P: ScoreBoardEventProvider<T>, C> vstd::std_specs::cmp::PartialEqSpecImpl for ScoreBoardEvent<T, P, C> {
    /// Equality goes through the names that the providers report, of which nothing is
    /// stated here; [`same_event`] states what is done with them.
    open spec fn obeys_eq_spec() -> bool {
        false
    }

    open spec fn eq_spec(&self, other: &ScoreBoardEvent<T, P, C>) -> bool {
        self.spec_property().same_property(&other.spec_property())
    }
}

impl<T, P: ScoreBoardEventProvider<T>, C> Eq for ScoreBoardEvent<T, P, C> {
}

} // verus!
