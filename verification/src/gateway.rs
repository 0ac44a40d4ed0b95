//! What the answers of the service mean to the tracker: which failures there
//! are, which D-Bus error stands for which, and which path names no object.

use vstd::prelude::*;

verus! {

/// Why the service did not answer a question about an object.
#[derive(Clone, Copy, Debug, PartialEq, Eq, Structural)]
pub enum GatewayError {
    /// The object, or the interface that was asked, was gone by the time it
    /// was asked.
    Vanished,
    /// The object is there but has no such property.
    Unavailable,
    /// The answer could not be understood.
    DecodeError,
}

/// Error of a call on an object that does not exist.
pub const UNKNOWN_OBJECT: &'static str = "org.freedesktop.DBus.Error.UnknownObject";

/// Error of a call on an interface that the object does not have.
pub const UNKNOWN_INTERFACE: &'static str = "org.freedesktop.DBus.Error.UnknownInterface";

/// Error of a call to a service that is not on the bus.
pub const SERVICE_UNKNOWN: &'static str = "org.freedesktop.DBus.Error.ServiceUnknown";

/// Error of a read of a property that the object does not have.
pub const UNKNOWN_PROPERTY: &'static str = "org.freedesktop.DBus.Error.UnknownProperty";

/// Error of a read that names a property in a way the object does not accept.
pub const INVALID_ARGS: &'static str = "org.freedesktop.DBus.Error.InvalidArgs";

/// The path that the service writes where an object refers to no other.
pub const NO_OBJECT: &'static str = "/";

/// What a D-Bus error of the given name means: the object or the interface is
/// gone, the property is missing, or, for every other name, the answer is not
/// one the tracker understands.
pub open spec fn meaning(error_name: Seq<char>) -> GatewayError {
    if error_name == UNKNOWN_OBJECT@ || error_name == UNKNOWN_INTERFACE@ || error_name == SERVICE_UNKNOWN@ {
        GatewayError::Vanished
    } else if error_name == UNKNOWN_PROPERTY@ || error_name == INVALID_ARGS@ {
        GatewayError::Unavailable
    } else {
        GatewayError::DecodeError
    }
}

/// Whether two texts are the same.
fn same(text: &str, other: &str) -> (equal: bool)
    ensures
        equal == (text@ == other@),
{
    text.to_owned() == other.to_owned()
}

/// What a D-Bus error of the given name means to the tracker.
pub fn failure_named(error_name: &str) -> (failure: GatewayError)
    ensures
        failure == meaning(error_name@),
{
    if same(error_name, UNKNOWN_OBJECT) || same(error_name, UNKNOWN_INTERFACE) || same(
        error_name,
        SERVICE_UNKNOWN,
    ) {
        GatewayError::Vanished
    } else if same(error_name, UNKNOWN_PROPERTY) || same(error_name, INVALID_ARGS) {
        GatewayError::Unavailable
    } else {
        GatewayError::DecodeError
    }
}

/// What a property that refers to another object names: the path that was
/// read, unless it is the path that names no object, in which case the property
/// counts as missing. A read that failed stays as it is.
pub fn reference(read: Result<String, GatewayError>) -> (named: Result<String, GatewayError>)
    ensures
        named == (match read {
            Ok(path) => if path@ == NO_OBJECT@ {
                Err::<String, GatewayError>(GatewayError::Unavailable)
            } else {
                Ok(path)
            },
            Err(error) => Err(error),
        }),
{
    match read {
        Ok(path) => {
            if same(path.as_str(), NO_OBJECT) {
                Err(GatewayError::Unavailable)
            } else {
                Ok(path)
            }
        },
        Err(error) => Err(error),
    }
}

} // verus!
