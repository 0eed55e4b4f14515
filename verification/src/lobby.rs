use vstd::prelude::*;

use crate::client::ClientLogger;
use crate::random::random_below;
use crate::text::decimal;
use crate::text::push_decimal;
use crate::text::push_str;

verus! {

/// What a game needs to know of a client in a lobby.
pub struct ClientInfo {
    pub client_id: u64,
    pub logger: ClientLogger,
    pub name: String,
    pub color: u8,
}

/// How many clients fit in one lobby.
pub const MAX_CLIENTS_PER_LOBBY: usize = 6;

/// The colors of the clients in a lobby, one for each client.
pub open spec fn all_colors() -> Seq<u8> {
    seq![31u8, 32u8, 33u8, 34u8, 35u8, 36u8]
}

/// The colors used by some clients.
pub open spec fn used_colors(clients: Seq<ClientInfo>) -> Seq<u8> {
    clients.map_values(|c: ClientInfo| c.color)
}

/// The index in `all_colors` of the first color that none of the clients has, if any.
pub open spec fn first_unused_color(clients: Seq<ClientInfo>, from: nat) -> Option<nat>
    decreases 6 - from,
{
    if from >= 6 {
        None
    } else if !used_colors(clients).contains(all_colors()[from as int]) {
        Some(from)
    } else {
        first_unused_color(clients, from + 1)
    }
}

proof fn lemma_all_colors_used(clients: Seq<ClientInfo>, from: nat)
    requires
        first_unused_color(clients, from) is None,
    ensures
        forall|k: int| from <= k < 6 ==> used_colors(clients).contains(#[trigger] all_colors()[k]),
    decreases 6 - from,
{
    if from < 6 {
        lemma_all_colors_used(clients, from + 1);
    }
}

proof fn lemma_unused_color_exists(clients: Seq<ClientInfo>)
    requires
        clients.len() < 6,
    ensures
        first_unused_color(clients, 0) is Some,
{
    let used = used_colors(clients);
    let colors = all_colors().to_set();
    if first_unused_color(clients, 0) is None {
        lemma_all_colors_used(clients, 0);
        assert forall|c: u8| colors.contains(c) implies used.to_set().contains(c) by {
            let k: int = choose|k: int| 0 <= k < 6 && all_colors()[k] == c;
            assert(used.contains(all_colors()[k]));
        }
        used.lemma_cardinality_of_set();
        vstd::set_lib::lemma_len_subset(colors, used.to_set());
        all_colors().unique_seq_to_set();
    }
}

/// The first color of `all_colors` that no client of the lobby has; there is one while the
/// lobby is not full.
pub fn unused_color(clients: &Vec<ClientInfo>) -> (r: u8)
    requires
        clients@.len() < MAX_CLIENTS_PER_LOBBY,
    ensures
        first_unused_color(clients@, 0) matches Some(k) && r == all_colors()[k as int],
{
    proof {
        lemma_unused_color_exists(clients@);
    }
    let colors: [u8; 6] = [31, 32, 33, 34, 35, 36];
    let mut k: usize = 0;
    while k < 6
        invariant
            k <= 6,
            colors@ == all_colors(),
            first_unused_color(clients@, 0) == first_unused_color(clients@, k as nat),
            first_unused_color(clients@, 0) is Some,
        decreases 6 - k,
    {
        let color = colors[k];
        let mut used = false;
        let mut i: usize = 0;
        while i < clients.len()
            invariant
                i <= clients@.len(),
                used <==> exists|j: int| 0 <= j < i && clients@[j].color == color,
            decreases clients@.len() - i,
        {
            if clients[i].color == color {
                used = true;
            }
            i = i + 1;
        }
        proof {
            let u = used_colors(clients@);
            if used {
                let j = choose|j: int| 0 <= j < clients@.len() && clients@[j].color == color;
                assert(u[j] == color);
            } else {
                assert forall|j: int| 0 <= j < u.len() implies u[j] != color by {
                    assert(u[j] == clients@[j].color);
                }
            }
        }
        if !used {
            return color;
        }
        k = k + 1;
    }
    0
}

/// The characters of lobby IDs: letters and digits that do not look like each other
/// in small fonts.
pub open spec fn id_alphabet() -> Seq<char> {
    seq!['D', 'H', 'J', 'K', 'L', 'M', 'N', 'P', 'R', 'T', 'W', 'X', 'Y', '3', '7', '9']
}

/// Six characters of the lobby ID alphabet.
pub open spec fn is_lobby_id(s: Seq<char>) -> bool {
    s.len() == 6 && forall|i: int| 0 <= i < 6 ==> id_alphabet().contains(#[trigger] s[i])
}

fn id_alphabet_exec() -> (r: [char; 16])
    ensures
        r@ == id_alphabet(),
{
    let r = ['D', 'H', 'J', 'K', 'L', 'M', 'N', 'P', 'R', 'T', 'W', 'X', 'Y', '3', '7', '9'];
    proof {
        assert(r@ =~= id_alphabet());
    }
    r
}

/// What `str::to_uppercase` of std gives for a text (Unicode uppercase mapping).
pub uninterp spec fn uppercase(s: Seq<char>) -> Seq<char>;

/// The text in uppercase (`str::to_uppercase` of std).
#[verifier::external_body]
fn to_uppercase(s: &str) -> (r: String)
    ensures
        r@ == uppercase(s@),
{
    s.to_uppercase()
}

/// A lobby ID as a player typed it, the way lobbies are looked up: in uppercase.
pub fn typed_lobby_id(text: &str) -> (r: String)
    ensures
        r@ == uppercase(text@),
{
    to_uppercase(text)
}

/// Why a player who typed the lobby ID `id` does not get into a lobby: `joined` is `None`
/// where no lobby has that ID, and else whether the player got into it. `None` when the
/// player got in.
pub open spec fn join_error_text(id: Seq<char>, joined: Option<bool>) -> Option<Seq<char>> {
    if !is_lobby_id(id) {
        Some("The text you entered doesn't look like a lobby ID."@)
    } else {
        match joined {
            None => Some("There is no lobby with ID '"@ + id + "'."@),
            Some(false) => Some("Lobby '"@ + id + "' is full. It already has "@ + decimal(MAX_CLIENTS_PER_LOBBY as nat) + " players."@),
            Some(true) => None,
        }
    }
}

/// The message for a player who typed a lobby ID and did not get into a lobby (see
/// `join_error_text`), or `None` when the player got in.
pub fn lobby_join_error(id: &str, joined: Option<bool>) -> (r: Option<String>)
    ensures
        match r {
            Some(t) => join_error_text(id@, joined) == Some(t@),
            None => join_error_text(id@, joined) is None,
        },
{
    if !looks_like_lobby_id(id) {
        let mut t = String::new();
        push_str(&mut t, "The text you entered doesn't look like a lobby ID.");
        proof {
            assert(t@ =~= "The text you entered doesn't look like a lobby ID."@);
        }
        return Some(t);
    }
    match joined {
        None => {
            let mut t = String::new();
            push_str(&mut t, "There is no lobby with ID '");
            push_str(&mut t, id);
            push_str(&mut t, "'.");
            proof {
                assert(t@ =~= "There is no lobby with ID '"@ + id@ + "'."@);
            }
            Some(t)
        },
        Some(false) => {
            let mut t = String::new();
            push_str(&mut t, "Lobby '");
            push_str(&mut t, id);
            push_str(&mut t, "' is full. It already has ");
            push_decimal(&mut t, MAX_CLIENTS_PER_LOBBY as u64);
            push_str(&mut t, " players.");
            proof {
                assert(t@ =~= "Lobby '"@ + id@ + "' is full. It already has "@ + decimal(MAX_CLIENTS_PER_LOBBY as nat) + " players."@);
            }
            Some(t)
        },
        Some(true) => None,
    }
}

/// Whether a text could be a lobby ID.
pub fn looks_like_lobby_id(string: &str) -> (r: bool)
    ensures
        r == is_lobby_id(string@),
{
    let chars = crate::text::chars_of(string);
    if chars.len() != 6 {
        return false;
    }
    let alphabet = id_alphabet_exec();
    let mut i: usize = 0;
    while i < 6
        invariant
            i <= 6,
            chars@ == string@,
            chars@.len() == 6,
            alphabet@ == id_alphabet(),
            forall|j: int| 0 <= j < i ==> id_alphabet().contains(#[trigger] chars@[j]),
        decreases 6 - i,
    {
        let mut found = false;
        let mut k: usize = 0;
        while k < 16
            invariant
                k <= 16,
                alphabet@ == id_alphabet(),
                i < 6,
                chars@.len() == 6,
                found <==> exists|m: int| 0 <= m < k && alphabet@[m] == chars@[i as int],
            decreases 16 - k,
        {
            if alphabet[k] == chars[i] {
                found = true;
            }
            k = k + 1;
        }
        if !found {
            proof {
                assert(!id_alphabet().contains(chars@[i as int]));
            }
            return false;
        }
        proof {
            let m = choose|m: int| 0 <= m < 16 && alphabet@[m] == chars@[i as int];
            assert(id_alphabet()[m] == chars@[i as int]);
        }
        i = i + 1;
    }
    true
}

/// A lobby ID with each character drawn from the alphabet by the thread's random generator.
pub fn random_lobby_id() -> (r: String)
    ensures
        is_lobby_id(r@),
{
    let alphabet = id_alphabet_exec();
    let mut chars: Vec<char> = Vec::new();
    let mut i: usize = 0;
    while i < 6
        invariant
            i <= 6,
            alphabet@ == id_alphabet(),
            chars@.len() == i,
            forall|j: int| 0 <= j < i ==> id_alphabet().contains(#[trigger] chars@[j]),
        decreases 6 - i,
    {
        let k = random_below(16);
        chars.push(alphabet[k]);
        proof {
            assert(id_alphabet()[k as int] == chars@[i as int]);
        }
        i = i + 1;
    }
    crate::text::string_from_chars(chars.as_slice())
}

/// The index of the first client with the id, or -1 if there is none.
pub open spec fn client_index(clients: Seq<ClientInfo>, client_id: u64) -> int
    decreases clients.len(),
{
    if clients.len() == 0 {
        -1
    } else {
        let i = client_index(clients.drop_last(), client_id);
        if i >= 0 {
            i
        } else if clients.last().client_id == client_id {
            clients.len() - 1
        } else {
            -1
        }
    }
}

proof fn lemma_client_index(clients: Seq<ClientInfo>, client_id: u64)
    ensures
        -1 <= client_index(clients, client_id) < clients.len(),
        client_index(clients, client_id) >= 0 ==> clients[client_index(clients, client_id)].client_id == client_id,
        forall|j: int| 0 <= j < clients.len() && (client_index(clients, client_id) == -1 || j < client_index(clients, client_id))
            ==> #[trigger] clients[j].client_id != client_id,
    decreases clients.len(),
{
    if clients.len() > 0 {
        lemma_client_index(clients.drop_last(), client_id);
        assert forall|j: int| 0 <= j < clients.len() - 1 implies #[trigger] clients[j] == clients.drop_last()[j] by {}
    }
}

/// Adds a client to a lobby that is not full, with the first color that no client of the
/// lobby has.
pub fn add_client(clients: &mut Vec<ClientInfo>, logger: ClientLogger, name: &str)
    requires
        old(clients)@.len() < MAX_CLIENTS_PER_LOBBY,
    ensures
        final(clients)@.len() == old(clients)@.len() + 1,
        final(clients)@.drop_last() == old(clients)@,
        ({
            let c = final(clients)@.last();
            &&& c.client_id == logger.client_id
            &&& c.logger == logger
            &&& c.name@ == name@
            &&& first_unused_color(old(clients)@, 0) matches Some(k) && c.color == all_colors()[k as int]
        }),
{
    let color = unused_color(clients);
    let mut owned_name = String::new();
    crate::text::push_str(&mut owned_name, name);
    proof {
        assert(owned_name@ =~= name@);
    }
    clients.push(ClientInfo { client_id: logger.client_id, logger, name: owned_name, color });
    proof {
        assert(clients@.drop_last() =~= old(clients)@);
    }
}

/// Removes the first client with the id from the lobby, where it is; returns the client's
/// logger.
pub fn remove_client(clients: &mut Vec<ClientInfo>, client_id: u64) -> (r: ClientLogger)
    requires
        client_index(old(clients)@, client_id) >= 0,
    ensures
        final(clients)@ == old(clients)@.remove(client_index(old(clients)@, client_id)),
        r == old(clients)@[client_index(old(clients)@, client_id)].logger,
{
    proof {
        lemma_client_index(clients@, client_id);
    }
    let ghost idx = client_index(clients@, client_id);
    let mut i: usize = 0;
    while i < clients.len()
        invariant
            clients@ == old(clients)@,
            0 <= idx < clients@.len(),
            i <= idx,
            clients@[idx].client_id == client_id,
            forall|j: int| 0 <= j < idx ==> #[trigger] clients@[j].client_id != client_id,
        ensures
            clients@ == old(clients)@,
            i == idx,
        decreases clients@.len() - i,
    {
        if clients[i].client_id == client_id {
            break;
        }
        i = i + 1;
    }
    let removed = clients.remove(i);
    removed.logger
}

} // verus!
