use filework::fs::connect::{Endpoint, UnknownHostPolicy};
use filework::fs::sessions::SftpProvider;
use filework::location::Location;

/// Stands for an open connection; the sessions only hold it.
#[derive(Debug, PartialEq)]
struct Session(u32);

fn endpoint() -> Endpoint {
    Endpoint {
        host: "127.0.0.1".to_string(),
        port: 1,
        user: "nobody".to_string(),
    }
}

#[test]
fn a_password_survives_a_connection_that_failed() {
    let mut provider: SftpProvider<Session> = SftpProvider::new();
    provider.set_password(endpoint(), "hunter2".to_string());

    // A first attempt reads the password, and fails: nothing is opened.
    assert_eq!(provider.password(&endpoint()), Some("hunter2"));
    assert!(provider.connection(&endpoint()).is_none());

    // The next attempt still has it.
    assert_eq!(
        provider.password(&endpoint()),
        Some("hunter2"),
        "the failed attempt must not have used the password up"
    );
}

#[test]
fn disconnecting_forgets_the_password() {
    let mut provider: SftpProvider<Session> = SftpProvider::new();
    provider.set_password(endpoint(), "hunter2".to_string());

    provider.disconnect(&endpoint());

    assert_eq!(
        provider.password(&endpoint()),
        None,
        "disconnecting drops the secret with the session"
    );
}

#[test]
fn disconnecting_everything_forgets_every_password() {
    let mut provider: SftpProvider<Session> = SftpProvider::new();
    provider.set_password(endpoint(), "hunter2".to_string());
    let other = Endpoint { host: "example.org".to_string(), port: 22, user: "jt".to_string() };
    provider.set_password(other.clone(), "swordfish".to_string());

    provider.disconnect_all();

    assert_eq!(provider.password(&endpoint()), None);
    assert_eq!(provider.password(&other), None);
}

#[test]
fn the_provider_claims_remote_locations_and_nothing_else() {
    let provider: SftpProvider<Session> = SftpProvider::new();
    assert!(provider.handles(&Location::remote("host", 22, "jt", "/")));
    assert!(!provider.handles(&Location::local("/tmp")));
    assert!(!provider.handles(&Location::virtual_location("search", "1")));
}

#[test]
fn an_opened_connection_is_reused_until_disconnected() {
    let mut provider: SftpProvider<Session> = SftpProvider::new();
    assert!(!provider.is_connected(&endpoint()));
    provider.opened(endpoint(), Session(7));
    assert!(provider.is_connected(&endpoint()));
    assert_eq!(provider.connection(&endpoint()), Some(&Session(7)));
    provider.opened(endpoint(), Session(8));
    assert_eq!(provider.connection(&endpoint()), Some(&Session(8)));
    provider.disconnect(&endpoint());
    assert!(!provider.is_connected(&endpoint()));
}

#[test]
fn only_an_accepted_host_has_its_unknown_key_recorded() {
    let mut provider: SftpProvider<Session> = SftpProvider::new();
    assert_eq!(provider.policy(&endpoint()), UnknownHostPolicy::Refuse);
    provider.accept_host(endpoint());
    provider.accept_host(endpoint());
    assert_eq!(provider.policy(&endpoint()), UnknownHostPolicy::AcceptAndRemember);
    let same_host_other_user = Endpoint { user: "root".to_string(), ..endpoint() };
    assert_eq!(provider.policy(&same_host_other_user), UnknownHostPolicy::Refuse);
    provider.disconnect_all();
    assert_eq!(
        provider.policy(&endpoint()),
        UnknownHostPolicy::AcceptAndRemember,
        "disconnecting does not take back the user's answer"
    );
}

use filework::error::{Error, ErrorCode};
use filework::fs::connect::{enrich, map_sftp};
use filework::fs::HostKeyVerdict;

#[test]
fn a_changed_key_is_the_reason_a_connection_failed() {
    let cut = Error::new(ErrorCode::Io, "connection reset");
    let changed = HostKeyVerdict::Changed { expected: "SHA256:aaa".to_string(), offered: "SHA256:bbb".to_string() };
    let e = enrich(cut, Some(&changed));
    assert_eq!(e.code(), ErrorCode::PermissionDenied);
    assert_eq!(
        e.context(),
        "the host key changed: expected SHA256:aaa, the server offered SHA256:bbb. Not connecting"
    );
    let unknown = HostKeyVerdict::Unknown { fingerprint: "SHA256:ccc".to_string() };
    let e = enrich(Error::new(ErrorCode::Io, "eof"), Some(&unknown));
    assert_eq!(e.code(), ErrorCode::PermissionDenied);
    assert_eq!(e.context(), "unknown host key SHA256:ccc");
    let e = enrich(Error::new(ErrorCode::TimedOut, "slow"), Some(&HostKeyVerdict::Known));
    assert_eq!(e.code(), ErrorCode::TimedOut);
    let e = enrich(Error::new(ErrorCode::Io, "eof"), None);
    assert_eq!(e.context(), "eof");
}

#[test]
fn an_sftp_failure_is_coded_by_what_it_says() {
    assert_eq!(map_sftp("Permission denied").code(), ErrorCode::PermissionDenied);
    assert_eq!(map_sftp("no permission to read").code(), ErrorCode::PermissionDenied);
    assert_eq!(map_sftp("No such file").code(), ErrorCode::NotFound);
    assert_eq!(map_sftp("there is no such folder").code(), ErrorCode::NotFound);
    assert_eq!(map_sftp("broken pipe").code(), ErrorCode::Io);
    assert_eq!(map_sftp("broken pipe").context(), "broken pipe");
}
