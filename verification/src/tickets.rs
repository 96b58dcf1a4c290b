//! Sources of usage tickets.

use vstd::prelude::*;
use vstd::string::*;
use vstd::utf8::encode_utf8;

use crate::crypto;
use crate::crypto::base64_text;
use crate::json;
use crate::json::{canonical, json_text, members, Json, JsonTree};
use crate::text;
use crate::token::TokenClass;
use crate::zk::{B64Bytes, TicketView, ZkTicket};

verus! {

/// Why there is no ticket for a request.
#[derive(Debug, Copy, Clone, PartialEq, Eq, Structural)]
pub enum TicketError {
    CommitmentLength,
    Empty,
    NotBound,
}

impl TicketError {
    /// The message of the error.
    pub open spec fn spec_message(self) -> Seq<char> {
        match self {
            TicketError::CommitmentLength => "Actum request commitment must be 32 bytes"@,
            TicketError::Empty => "ticket file is empty"@,
            TicketError::NotBound => "issued ticket is not bound to the exact inference request"@,
        }
    }

    /// The message of the error.
    pub fn message(&self) -> (r: &'static str)
        ensures
            r@ == self.spec_message(),
    {
        match self {
            TicketError::CommitmentLength => "Actum request commitment must be 32 bytes",
            TicketError::Empty => "ticket file is empty",
            TicketError::NotBound => "issued ticket is not bound to the exact inference request",
        }
    }
}

/// A source of tickets, one for each call. A ticket that it hands out is bound
/// to the request that it was asked for.
pub trait TicketSource: Send + Sync + Sized {
    /// Whether a source that stands at `before` may answer a request for a ticket
    /// with `outcome` and stand at `after` then.
    spec fn answers(
        before: Self,
        class: TokenClass,
        commitment: Seq<u8>,
        outcome: Result<TicketView, TicketError>,
        after: Self,
    ) -> bool;

    fn next_ticket(&mut self, token_class: TokenClass, request_commitment: &[u8]) -> (r: Result<
        ZkTicket,
        TicketError,
    >)
        ensures
            r matches Ok(t) ==> t@.commitment_root == request_commitment@,
            Self::answers(
                *old(self),
                token_class,
                request_commitment@,
                outcome_view(r),
                *final(self),
            ),
    ;
}

/// An outcome by the ticket it holds.
pub open spec fn outcome_view(outcome: Result<ZkTicket, TicketError>) -> Result<
    TicketView,
    TicketError,
> {
    match outcome {
        Ok(ticket) => Ok(ticket@),
        Err(e) => Err(e),
    }
}

/// Tickets of random bytes, for development only.
#[derive(Debug)]
pub struct DummyTicketSource;

impl Default for DummyTicketSource {
    fn default() -> (r: Self)
        ensures
            r == DummyTicketSource,
    {
        DummyTicketSource
    }
}

impl TicketSource for DummyTicketSource {
    open spec fn answers(
        before: Self,
        class: TokenClass,
        commitment: Seq<u8>,
        outcome: Result<TicketView, TicketError>,
        after: Self,
    ) -> bool {
        &&& outcome is Ok
        &&& outcome->Ok_0.commitment_root == commitment
        &&& outcome->Ok_0.token_class == class
        &&& outcome->Ok_0.nullifier.len() == 32
        &&& outcome->Ok_0.proof.len() == 64
    }

    fn next_ticket(&mut self, token_class: TokenClass, request_commitment: &[u8]) -> (r: Result<
        ZkTicket,
        TicketError,
    >) {
        let nullifier = crypto::random_bytes(32);
        let proof_bytes = crypto::random_bytes(64);
        Ok(
            ZkTicket {
                commitment_root: B64Bytes(text::copy_bytes(request_commitment)),
                nullifier: B64Bytes(nullifier),
                token_class,
                proof: B64Bytes(proof_bytes),
            },
        )
    }
}

/// Evidence in the shape of the protocol, which only a local test fixture
/// accepts.
#[derive(Debug)]
pub struct ActumDevTicketSource;

impl Default for ActumDevTicketSource {
    fn default() -> (r: Self)
        ensures
            r == ActumDevTicketSource,
    {
        ActumDevTicketSource
    }
}

/// The JSON of development evidence.
pub open spec fn evidence_tree(
    commitment: Seq<u8>,
    replay_identifier: Seq<u8>,
    token_class: TokenClass,
    authorization_id: Seq<u8>,
) -> JsonTree {
    JsonTree::Fields(
        seq![
            ("schema"@, JsonTree::Text("actum.payment-finality.v1"@)),
            ("request_commitment_b64"@, JsonTree::Text(base64_text(commitment))),
            ("replay_identifier_b64"@, JsonTree::Text(base64_text(replay_identifier))),
            ("token_class"@, JsonTree::Text(token_class.name())),
            ("finalized"@, JsonTree::Bool(true)),
            ("authorization_id_b64"@, JsonTree::Text(base64_text(authorization_id))),
        ],
    )
}

/// The ticket that development evidence makes.
pub open spec fn dev_ticket(
    commitment: Seq<u8>,
    replay_identifier: Seq<u8>,
    token_class: TokenClass,
    authorization_id: Seq<u8>,
) -> TicketView {
    TicketView {
        commitment_root: commitment,
        nullifier: replay_identifier,
        token_class,
        proof: encode_utf8(
            json_text(
                canonical(
                    evidence_tree(commitment, replay_identifier, token_class, authorization_id),
                ),
            ),
        ),
    }
}

/// A development ticket with given identifiers.
pub fn dev_ticket_with(
    token_class: TokenClass,
    request_commitment: &[u8],
    replay_identifier: Vec<u8>,
    authorization_id: Vec<u8>,
) -> (r: ZkTicket)
    ensures
        r@ == dev_ticket(
            request_commitment@,
            replay_identifier@,
            token_class,
            authorization_id@,
        ),
{
    let fields: Vec<(String, Json)> = vec![
        (
            String::from_str("schema"),
            Json::Text(String::from_str("actum.payment-finality.v1")),
        ),
        (
            String::from_str("request_commitment_b64"),
            Json::Text(crypto::base64_encode(request_commitment)),
        ),
        (
            String::from_str("replay_identifier_b64"),
            Json::Text(crypto::base64_encode(replay_identifier.as_slice())),
        ),
        (
            String::from_str("token_class"),
            Json::Text(String::from_str(token_class.wire_name())),
        ),
        (String::from_str("finalized"), Json::Bool(true)),
        (
            String::from_str("authorization_id_b64"),
            Json::Text(crypto::base64_encode(authorization_id.as_slice())),
        ),
    ];
    proof {
        json::law_fields_tree(fields);
        assert(members(fields@) =~= evidence_tree(
            request_commitment@,
            replay_identifier@,
            token_class,
            authorization_id@,
        )->Fields_0);
    }
    let evidence = Json::Fields(fields).text();
    let evidence_bytes = text::copy_bytes(evidence.as_str().as_bytes());
    ZkTicket {
        commitment_root: B64Bytes(text::copy_bytes(request_commitment)),
        nullifier: B64Bytes(replay_identifier),
        token_class,
        proof: B64Bytes(evidence_bytes),
    }
}

impl TicketSource for ActumDevTicketSource {
    open spec fn answers(
        before: Self,
        class: TokenClass,
        commitment: Seq<u8>,
        outcome: Result<TicketView, TicketError>,
        after: Self,
    ) -> bool {
        if commitment.len() == 32 {
            outcome matches Ok(ticket) && exists|replay: Seq<u8>, id: Seq<u8>|
                replay.len() == 48 && id.len() == 48 && ticket == #[trigger] dev_ticket(
                    commitment,
                    replay,
                    class,
                    id,
                )
        } else {
            outcome == Err::<TicketView, TicketError>(TicketError::CommitmentLength)
        }
    }

    fn next_ticket(&mut self, token_class: TokenClass, request_commitment: &[u8]) -> (r: Result<
        ZkTicket,
        TicketError,
    >) {
        if request_commitment.len() != 32 {
            return Err(TicketError::CommitmentLength);
        }
        let replay_identifier = crypto::random_bytes(48);
        let authorization_id = crypto::random_bytes(48);
        Ok(dev_ticket_with(token_class, request_commitment, replay_identifier, authorization_id))
    }
}

/// Tickets that were issued beforehand, each for one use.
#[derive(Debug)]
pub struct FileTicketSource {
    tickets: Vec<ZkTicket>,
}

/// What some tickets hold.
pub open spec fn ticket_views(tickets: Seq<ZkTicket>) -> Seq<TicketView> {
    Seq::new(tickets.len(), |i: int| tickets[i]@)
}

/// The first ticket of a class, if there is one.
pub open spec fn first_of_class(tickets: Seq<TicketView>, class: TokenClass) -> Option<int>
    decreases tickets.len(),
{
    if tickets.len() == 0 {
        None
    } else {
        match first_of_class(tickets.drop_last(), class) {
            Some(i) => Some(i),
            None => if tickets.last().token_class == class {
                Some(tickets.len() - 1)
            } else {
                None
            },
        }
    }
}

/// The ticket that is taken for a class: the first of that class, or else the
/// first of all.
pub open spec fn ticket_for(tickets: Seq<TicketView>, class: TokenClass) -> Option<int> {
    match first_of_class(tickets, class) {
        Some(i) => Some(i),
        None => if tickets.len() > 0 {
            Some(0)
        } else {
            None
        },
    }
}

impl FileTicketSource {
    /// The tickets that are left.
    pub closed spec fn left(&self) -> Seq<TicketView> {
        ticket_views(self.tickets@)
    }

    /// A source of given tickets.
    pub fn new(tickets: Vec<ZkTicket>) -> (r: FileTicketSource)
        ensures
            r.left() == ticket_views(tickets@),
    {
        FileTicketSource { tickets }
    }

    /// The tickets that are left.
    pub fn tickets(&self) -> (r: &Vec<ZkTicket>)
        ensures
            ticket_views(r@) == self.left(),
    {
        &self.tickets
    }

    fn choose_ticket(&self, token_class: TokenClass) -> (r: Option<usize>)
        ensures
            match r {
                Some(i) => ticket_for(self.left(), token_class) == Some(i as int) && i
                    < self.tickets@.len(),
                None => ticket_for(self.left(), token_class) is None,
            },
    {
        let ghost all = self.left();
        let mut i: usize = 0;
        proof {
            assert(all.take(0) =~= Seq::empty());
        }
        while i < self.tickets.len()
            invariant
                i <= self.tickets@.len(),
                all == self.left(),
                first_of_class(all.take(i as int), token_class) is None,
            decreases self.tickets@.len() - i,
        {
            proof {
                assert(all.take(i + 1).drop_last() =~= all.take(i as int));
                assert(all.take(i + 1).last() == self.tickets@[i as int]@);
            }
            if self.tickets[i].token_class == token_class {
                proof {
                    lemma_first_stays(all, token_class, i + 1);
                }
                return Some(i);
            }
            i += 1;
        }
        proof {
            assert(all.take(all.len() as int) =~= all);
        }
        if self.tickets.len() > 0 {
            Some(0)
        } else {
            None
        }
    }
}

proof fn lemma_first_stays(tickets: Seq<TicketView>, class: TokenClass, n: int)
    requires
        0 <= n <= tickets.len(),
        first_of_class(tickets.take(n), class) is Some,
    ensures
        first_of_class(tickets, class) == first_of_class(tickets.take(n), class),
    decreases tickets.len(),
{
    if n == tickets.len() {
        assert(tickets.take(n) =~= tickets);
    } else {
        let front = tickets.drop_last();
        assert(front.take(n) =~= tickets.take(n));
        lemma_first_stays(front, class, n);
    }
}

/// The ticket that is taken is the first of the class that is asked for. Only where
/// there is none of that class, the first of all is taken, and none where there are
/// none.
pub proof fn law_first_ticket_of_the_class_is_taken(tickets: Seq<TicketView>, class: TokenClass)
    ensures
        match ticket_for(tickets, class) {
            None => tickets.len() == 0,
            Some(i) => {
                &&& 0 <= i < tickets.len()
                &&& tickets[i].token_class == class ==> forall|j: int|
                    0 <= j < i ==> (#[trigger] tickets[j]).token_class != class
                &&& tickets[i].token_class != class ==> i == 0 && forall|j: int|
                    0 <= j < tickets.len() ==> (#[trigger] tickets[j]).token_class != class
            },
        },
{
    lemma_first(tickets, class);
}

proof fn lemma_first(tickets: Seq<TicketView>, class: TokenClass)
    ensures
        match first_of_class(tickets, class) {
            None => forall|j: int|
                0 <= j < tickets.len() ==> (#[trigger] tickets[j]).token_class != class,
            Some(i) => {
                &&& 0 <= i < tickets.len()
                &&& tickets[i].token_class == class
                &&& forall|j: int| 0 <= j < i ==> (#[trigger] tickets[j]).token_class != class
            },
        },
    decreases tickets.len(),
{
    if tickets.len() > 0 {
        let front = tickets.drop_last();
        lemma_first(front, class);
        assert forall|j: int| 0 <= j < front.len() implies #[trigger] tickets[j] == front[j] by {}
        if first_of_class(front, class) is None {
            assert forall|j: int| 0 <= j < front.len() implies (#[trigger] tickets[j]).token_class
                != class by {
                assert(front[j].token_class != class);
            }
        } else {
            let i = first_of_class(front, class)->0;
            assert forall|j: int| 0 <= j < i implies (#[trigger] tickets[j]).token_class
                != class by {
                assert(front[j].token_class != class);
            }
        }
    }
}

/// Development evidence says what it is for: the schema of the protocol, the commitment
/// of the request, the identifier against replay, the class, that it is final, and the
/// identifier of the authorization, each under its own name.
pub proof fn law_evidence_says_what_it_is_for(
    commitment: Seq<u8>,
    replay_identifier: Seq<u8>,
    token_class: TokenClass,
    authorization_id: Seq<u8>,
)
    ensures
        ({
            let tree = evidence_tree(commitment, replay_identifier, token_class, authorization_id);
            let ticket = dev_ticket(commitment, replay_identifier, token_class, authorization_id);
            &&& json::get_member(tree, "schema"@) == Some(
                JsonTree::Text("actum.payment-finality.v1"@),
            )
            &&& json::get_member(tree, "request_commitment_b64"@) == Some(
                JsonTree::Text(base64_text(commitment)),
            )
            &&& json::get_member(tree, "replay_identifier_b64"@) == Some(
                JsonTree::Text(base64_text(replay_identifier)),
            )
            &&& json::get_member(tree, "token_class"@) == Some(JsonTree::Text(token_class.name()))
            &&& json::get_member(tree, "finalized"@) == Some(JsonTree::Bool(true))
            &&& json::get_member(tree, "authorization_id_b64"@) == Some(
                JsonTree::Text(base64_text(authorization_id)),
            )
            &&& ticket.commitment_root == commitment
            &&& ticket.nullifier == replay_identifier
            &&& ticket.token_class == token_class
            &&& ticket.proof == encode_utf8(json_text(canonical(tree)))
        }),
{
    let f = evidence_tree(
        commitment,
        replay_identifier,
        token_class,
        authorization_id,
    )->Fields_0;
    reveal_strlit("schema");
    reveal_strlit("request_commitment_b64");
    reveal_strlit("replay_identifier_b64");
    reveal_strlit("token_class");
    reveal_strlit("finalized");
    reveal_strlit("authorization_id_b64");
    assert("schema"@.len() == 6 && "request_commitment_b64"@.len() == 22
        && "replay_identifier_b64"@.len() == 21 && "token_class"@.len() == 11 && "finalized"@.len()
        == 9 && "authorization_id_b64"@.len() == 20);
    assert(f.len() == 6);
    assert(f[0].0 == "schema"@ && f[1].0 == "request_commitment_b64"@ && f[2].0
        == "replay_identifier_b64"@ && f[3].0 == "token_class"@ && f[4].0 == "finalized"@ && f[5].0
        == "authorization_id_b64"@);
    json::law_last_member_counts(f, 0, "schema"@);
    json::law_last_member_counts(f, 1, "request_commitment_b64"@);
    json::law_last_member_counts(f, 2, "replay_identifier_b64"@);
    json::law_last_member_counts(f, 3, "token_class"@);
    json::law_last_member_counts(f, 4, "finalized"@);
    json::law_last_member_counts(f, 5, "authorization_id_b64"@);
}

/// A ticket that is taken is gone: whatever is left afterwards, counting
/// repetitions, is what there was without that ticket.
pub proof fn law_ticket_is_used_once(tickets: Seq<TicketView>, class: TokenClass)
    requires
        tickets.len() > 0,
    ensures
        ticket_for(tickets, class) is Some,
        ({
            let i = ticket_for(tickets, class)->0;
            &&& 0 <= i < tickets.len()
            &&& tickets.remove(i).to_multiset() == tickets.to_multiset().remove(tickets[i])
        }),
{
    broadcast use vstd::seq_lib::group_to_multiset_ensures;

    lemma_first_within(tickets, class);
}

proof fn lemma_first_within(tickets: Seq<TicketView>, class: TokenClass)
    ensures
        first_of_class(tickets, class) matches Some(i) ==> 0 <= i < tickets.len(),
    decreases tickets.len(),
{
    if tickets.len() > 0 {
        lemma_first_within(tickets.drop_last(), class);
    }
}

impl TicketSource for FileTicketSource {
    open spec fn answers(
        before: Self,
        class: TokenClass,
        commitment: Seq<u8>,
        outcome: Result<TicketView, TicketError>,
        after: Self,
    ) -> bool {
        match ticket_for(before.left(), class) {
            None => outcome == Err::<TicketView, TicketError>(TicketError::Empty) && after.left()
                == before.left(),
            Some(i) => {
                &&& 0 <= i < before.left().len()
                &&& after.left() == before.left().remove(i)
                &&& outcome == if before.left()[i].commitment_root == commitment {
                    Ok::<TicketView, TicketError>(before.left()[i])
                } else {
                    Err::<TicketView, TicketError>(TicketError::NotBound)
                }
            },
        }
    }

    fn next_ticket(&mut self, token_class: TokenClass, request_commitment: &[u8]) -> (r: Result<
        ZkTicket,
        TicketError,
    >) {
        let i: usize = match self.choose_ticket(token_class) {
            Some(i) => i,
            None => return Err(TicketError::Empty),
        };
        let ghost before = self.tickets@;
        let ticket = self.tickets.remove(i);
        proof {
            assert(ticket_views(self.tickets@) =~= ticket_views(before).remove(i as int));
        }
        if !text::bytes_eq(ticket.commitment_root.0.as_slice(), request_commitment) {
            return Err(TicketError::NotBound);
        }
        Ok(ticket)
    }
}

/// Development tickets are bound to the request that they are asked for, in its class,
/// and have identifiers and evidence of these lengths.
pub proof fn law_development_tickets_are_bound(
    dummy: DummyTicketSource,
    actum: ActumDevTicketSource,
    class: TokenClass,
    commitment: Seq<u8>,
    outcome: Result<TicketView, TicketError>,
)
    ensures
        DummyTicketSource::answers(dummy, class, commitment, outcome, dummy) <==> {
            &&& outcome matches Ok(ticket)
            &&& ticket.commitment_root == commitment
            &&& ticket.token_class == class
            &&& ticket.nullifier.len() == 32
            &&& ticket.proof.len() == 64
        },
        ActumDevTicketSource::answers(actum, class, commitment, outcome, actum) ==> {
            &&& commitment.len() == 32 <==> outcome is Ok
            &&& outcome matches Ok(ticket) ==> ticket.commitment_root == commitment
                && ticket.token_class == class && ticket.nullifier.len() == 48
            &&& outcome matches Err(e) ==> e == TicketError::CommitmentLength
        },
{
}

/// Issued tickets are good for the request that they were issued for alone, and each is
/// used up by being asked for, whether it is bound to the request or not.
pub proof fn law_issued_tickets_are_used_up(
    before: FileTicketSource,
    after: FileTicketSource,
    class: TokenClass,
    commitment: Seq<u8>,
    outcome: Result<TicketView, TicketError>,
)
    requires
        FileTicketSource::answers(before, class, commitment, outcome, after),
    ensures
        before.left().len() == 0 ==> outcome == Err::<TicketView, TicketError>(TicketError::Empty)
            && after.left() == before.left(),
        before.left().len() > 0 ==> after.left().len() == before.left().len() - 1 && exists|i: int|
            0 <= i < before.left().len() && after.left() == #[trigger] before.left().remove(i)
                && outcome == (if before.left()[i].commitment_root == commitment {
                Ok::<TicketView, TicketError>(before.left()[i])
            } else {
                Err::<TicketView, TicketError>(TicketError::NotBound)
            }),
        outcome matches Ok(ticket) ==> ticket.commitment_root == commitment
            && before.left().contains(ticket),
{
    law_first_ticket_of_the_class_is_taken(before.left(), class);
}

} // verus!
