use udisks_topology::gateway::{failure_named, reference, GatewayError, NO_OBJECT};

#[test]
fn an_unknown_object_has_vanished() {
    assert_eq!(failure_named("org.freedesktop.DBus.Error.UnknownObject"), GatewayError::Vanished);
    assert_eq!(failure_named("org.freedesktop.DBus.Error.UnknownInterface"), GatewayError::Vanished);
    assert_eq!(failure_named("org.freedesktop.DBus.Error.ServiceUnknown"), GatewayError::Vanished);
}

#[test]
fn an_unknown_property_is_unavailable() {
    assert_eq!(failure_named("org.freedesktop.DBus.Error.UnknownProperty"), GatewayError::Unavailable);
    assert_eq!(failure_named("org.freedesktop.DBus.Error.InvalidArgs"), GatewayError::Unavailable);
}

#[test]
fn any_other_error_is_not_understood() {
    assert_eq!(failure_named("org.freedesktop.DBus.Error.Failed"), GatewayError::DecodeError);
    assert_eq!(failure_named("org.freedesktop.DBus.Error.InvalidSignature"), GatewayError::DecodeError);
    assert_eq!(failure_named("org.freedesktop.UDisks2.Error.Failed"), GatewayError::DecodeError);
    assert_eq!(failure_named("org.freedesktop.DBus.Error.UnknownObjects"), GatewayError::DecodeError);
    assert_eq!(failure_named("UnknownObject"), GatewayError::DecodeError);
    assert_eq!(failure_named(""), GatewayError::DecodeError);
}

#[test]
fn the_root_path_names_no_object() {
    assert_eq!(NO_OBJECT, "/");
    assert_eq!(reference(Ok("/".to_string())), Err(GatewayError::Unavailable));
}

#[test]
fn any_other_path_names_an_object() {
    assert_eq!(
        reference(Ok("/org/freedesktop/UDisks2/drives/Disk_1".to_string())),
        Ok("/org/freedesktop/UDisks2/drives/Disk_1".to_string())
    );
    assert_eq!(reference(Ok("//".to_string())), Ok("//".to_string()));
    assert_eq!(reference(Ok("".to_string())), Ok("".to_string()));
}

#[test]
fn a_failed_read_of_a_reference_stays_failed() {
    assert_eq!(reference(Err(GatewayError::Vanished)), Err(GatewayError::Vanished));
    assert_eq!(reference(Err(GatewayError::Unavailable)), Err(GatewayError::Unavailable));
    assert_eq!(reference(Err(GatewayError::DecodeError)), Err(GatewayError::DecodeError));
}
