use container_manager::cron::without_entries;
use container_manager::forward::{forward_reply, ForwardOutcome};

#[test]
fn cron_entries_of_the_script_are_removed() {
    let table = "0 * * * * /usr/bin/backup\n*/1 * * * * /opt/bench/script.sh\n5 4 * * * echo hi\n";
    assert_eq!(
        without_entries(table, "/opt/bench/script.sh"),
        "0 * * * * /usr/bin/backup\n5 4 * * * echo hi"
    );
}

#[test]
fn cron_table_without_matches_is_rejoined() {
    assert_eq!(without_entries("a\r\nb", "zzz"), "a\nb");
    assert_eq!(without_entries("", "zzz"), "");
    assert_eq!(without_entries("only zzz here", "zzz"), "");
}

#[test]
fn forward_replies() {
    let ok = forward_reply(ForwardOutcome::Accepted);
    assert_eq!((ok.status, ok.success), (200, true));
    assert_eq!(ok.message, "Mensaje enviado al goclient con éxito");
    let bad = forward_reply(ForwardOutcome::Rejected);
    assert_eq!((bad.status, bad.success), (500, false));
    assert_eq!(bad.message, "Error al enviar al goclient");
    let down = forward_reply(ForwardOutcome::Unreachable);
    assert_eq!((down.status, down.success), (500, false));
    assert_eq!(down.message, "Error conectando al goclient");
}
