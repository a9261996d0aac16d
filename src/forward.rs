use vstd::prelude::*;

verus! {

/// How handing a weather message on to the downstream publisher went.
#[derive(Clone, Copy, Debug, PartialEq, Eq, Structural)]
pub enum ForwardOutcome {
    /// The publisher answered with a success status.
    Accepted,
    /// The publisher answered with any other status.
    Rejected,
    /// The publisher could not be reached.
    Unreachable,
}

/// The answer given to the client that posted the message.
#[derive(Clone, Debug)]
pub struct ForwardReply {
    pub status: u16,
    pub success: bool,
    pub message: String,
}

pub open spec fn reply_message(o: ForwardOutcome) -> Seq<char> {
    match o {
        ForwardOutcome::Accepted => "Mensaje enviado al goclient con éxito"@,
        ForwardOutcome::Rejected => "Error al enviar al goclient"@,
        ForwardOutcome::Unreachable => "Error conectando al goclient"@,
    }
}

/// The reply for a forwarding outcome: 200 and success when the publisher
/// accepted the message, 500 and failure otherwise.
pub fn forward_reply(o: ForwardOutcome) -> (r: ForwardReply)
    ensures
        r.success == (o == ForwardOutcome::Accepted),
        r.status == (if o == ForwardOutcome::Accepted { 200u16 } else { 500u16 }),
        r.message@ == reply_message(o),
{
    match o {
        ForwardOutcome::Accepted => ForwardReply {
            status: 200,
            success: true,
            message: "Mensaje enviado al goclient con éxito".to_owned(),
        },
        ForwardOutcome::Rejected => ForwardReply {
            status: 500,
            success: false,
            message: "Error al enviar al goclient".to_owned(),
        },
        ForwardOutcome::Unreachable => ForwardReply {
            status: 500,
            success: false,
            message: "Error conectando al goclient".to_owned(),
        },
    }
}

} // verus!
