//! The table of a game of Commune: who sits at it, whose turn it is, the bet
//! that stands, and what a bet and a call do to it.

use crate::card::Card;
use crate::poker::copy_of;
use crate::poker::holds;
use crate::poker::Commune;
use crate::poker::Deck;
use crate::poker::Hand;
use crate::poker::HandValue;
use crate::poker::PokerError;
use vstd::prelude::*;
use vstd::std_specs::convert::FromSpecImpl;

verus! {

/// What a move at the table comes to.
pub type GameResult = Result<(), GameError>;

/// One player at the table.
#[derive(Debug)]
pub struct Player {
    pub name: u8,
    pub hand: Hand,
    pub penalties: u8,
}

/// The table: the players in the order of their turns, the place of the
/// player who moves next, the bet that stands, and the cards not yet dealt.
#[derive(Debug)]
pub struct GameState {
    pub players: Vec<Player>,
    pub current_turn: usize,
    pub current_bet: Option<HandValue>,
    pub deck: Deck,
}

/// What a player can do when it is their turn.
#[derive(Debug)]
pub enum GameMove {
    /// Claim that the cards of all players together satisfy a value.
    Bet(HandValue),
    /// Doubt the bet that stands.
    Call(),
}

/// Why a move was refused.
#[derive(Debug)]
pub enum GameError {
    /// The deck or a category refused.
    Poker(PokerError),
    /// A call was made while no bet stood.
    CallWithNoBet,
    /// What the player typed could not be read.
    IO,
}

/// A player as the rules see one.
pub struct Seat {
    pub name: u8,
    pub hand: Seq<Card>,
    pub penalties: u8,
}

/// The table as the rules see it.
pub struct Table {
    pub seats: Seq<Seat>,
    pub turn: usize,
    pub bet: Option<HandValue>,
    pub deck: Seq<Card>,
}

impl View for Player {
    type V = Seat;

    open spec fn view(&self) -> Seat {
        Seat { name: self.name, hand: self.hand.cards@, penalties: self.penalties }
    }
}

impl View for GameState {
    type V = Table;

    open spec fn view(&self) -> Table {
        Table {
            seats: seats_of(self.players@),
            turn: self.current_turn,
            bet: self.current_bet,
            deck: self.deck@,
        }
    }
}

/// The seats of a row of players.
pub open spec fn seats_of(players: Seq<Player>) -> Seq<Seat> {
    players.map_values(|player: Player| player@)
}

/// The cards of the first `n` seats, seat after seat.
pub open spec fn pool_of(seats: Seq<Seat>, n: int) -> Seq<Card>
    decreases n,
{
    if n <= 0 {
        Seq::<Card>::empty()
    } else {
        pool_of(seats, n - 1) + seats[n - 1].hand
    }
}

impl Table {
    /// It is somebody's turn, and nobody at the table has three penalties.
    pub open spec fn wf(self) -> bool {
        &&& self.turn < self.seats.len()
        &&& forall|i: int| 0 <= i < self.seats.len() ==> (#[trigger] self.seats[i]).penalties < 3
    }

    /// Nobody has so many penalties that one more card than that cannot be
    /// counted in a byte.
    pub open spec fn countable(self) -> bool {
        forall|i: int| 0 <= i < self.seats.len() ==> (#[trigger] self.seats[i]).penalties < 255
    }

    /// Whether a call of `bet` can be settled: the player who pays for it
    /// sits at the table, and the cards due to each player can be counted.
    pub open spec fn can_settle(self, bet: HandValue) -> bool {
        0 <= self.loser(bet) < self.seats.len() && self.countable()
    }

    /// Whether a move can be made: for a bet the turn must be able to move
    /// on, and a call of a bet that stands must be one that can be settled.
    pub open spec fn can_make(self, game_move: GameMove) -> bool {
        match game_move {
            GameMove::Bet(_) => self.turn < usize::MAX,
            GameMove::Call() => match self.bet {
                None => true,
                Some(bet) => self.can_settle(bet),
            },
        }
    }

    /// The place that moves after the current one: the next, or the first
    /// after the last.
    pub open spec fn next_turn(self) -> int {
        if self.turn + 1 == self.seats.len() {
            0
        } else {
            self.turn + 1
        }
    }

    /// The place that moved before the current one: the one before, or the
    /// last before the first.
    pub open spec fn previous_turn(self) -> int {
        if self.turn > 0 {
            self.turn - 1
        } else {
            self.seats.len() - 1
        }
    }

    /// The cards of all players together.
    pub open spec fn pool(self) -> Seq<Card> {
        pool_of(self.seats, self.seats.len() as int)
    }

    /// The table after a bet: the bet stands and the turn moves on.
    pub open spec fn after_bet(self, value: HandValue) -> Table {
        Table { bet: Some(value), turn: self.next_turn() as usize, ..self }
    }

    /// Who pays for a call of `bet`: the caller where the pooled cards
    /// satisfy the bet, else the player who made it.
    pub open spec fn loser(self, bet: HandValue) -> int {
        if holds(self.pool(), bet) {
            self.turn as int
        } else {
            self.previous_turn()
        }
    }

    /// The seats after the player at `place` took a penalty: one more
    /// penalty for that player, who leaves the table with the third.
    pub open spec fn penalized(self, place: int) -> Seq<Seat> {
        let seat = self.seats[place];
        if seat.penalties + 1 >= 3 {
            self.seats.remove(place)
        } else {
            self.seats.update(place, Seat { penalties: (seat.penalties + 1) as u8, ..seat })
        }
    }

    /// The table after the seats from `from` on were dealt their cards, one
    /// after the other for as long as the deck can serve them, and whether
    /// it could serve them all. A player gets one card more than they have
    /// penalties, taken from the end of the deck, in place of the cards
    /// held before.
    pub open spec fn deal_from(self, from: int) -> (Table, bool)
        decreases self.seats.len() - from,
    {
        if from < 0 || from >= self.seats.len() {
            (self, true)
        } else {
            let seat = self.seats[from];
            match Deck::split(self.deck, (seat.penalties + 1) as nat) {
                None => (self, false),
                Some((left, hand)) => Table {
                    seats: self.seats.update(from, Seat { hand, ..seat }),
                    deck: left,
                    ..self
                }.deal_from(from + 1),
            }
        }
    }

    /// The table after a call of the bet `bet`: the loser takes a penalty,
    /// the turn goes to the loser's place, no bet stands, and every player
    /// who is still at the table is dealt new cards.
    pub open spec fn after_call(self, bet: HandValue) -> (Table, bool) {
        let place = self.loser(bet);
        Table {
            seats: self.penalized(place),
            turn: place as usize,
            bet: None,
            deck: self.deck,
        }.deal_from(0)
    }

    /// A table at which `n` players with the names 0, 1, ... sit down
    /// without cards or penalties, with `deck` to deal from.
    pub open spec fn fresh(n: u8, deck: Seq<Card>) -> Table {
        Table {
            seats: Seq::new(
                n as nat,
                |i: int| Seat { name: i as u8, hand: Seq::<Card>::empty(), penalties: 0 },
            ),
            turn: 0,
            bet: None,
            deck,
        }
    }
}

impl Clone for Player {
    fn clone(&self) -> (copy: Self)
        ensures
            copy@ == self@,
    {
        Player { name: self.name, hand: self.hand.clone(), penalties: self.penalties }
    }
}

impl Clone for GameState {
    fn clone(&self) -> (copy: Self)
        ensures
            copy@ == self@,
    {
        let mut players: Vec<Player> = Vec::new();
        let mut i: usize = 0;
        while i < self.players.len()
            invariant
                i <= self.players@.len(),
                seats_of(players@) == seats_of(self.players@).take(i as int),
            decreases self.players.len() - i,
        {
            let player = self.players[i].clone();
            proof {
                players@.lemma_push_map_commute(|player: Player| player@, player);
                assert(seats_of(self.players@)[i as int] == self.players@[i as int]@);
                assert(seats_of(self.players@).take(i + 1) =~= seats_of(self.players@).take(
                    i as int,
                ).push(player@));
            }
            players.push(player);
            i += 1;
        }
        proof {
            assert(seats_of(self.players@).take(self.players@.len() as int) =~= seats_of(
                self.players@,
            ));
        }
        GameState {
            players,
            current_turn: self.current_turn,
            current_bet: self.current_bet,
            deck: self.deck.clone(),
        }
    }
}

impl From<PokerError> for GameError {
    fn from(e: PokerError) -> (error: Self) {
        GameError::Poker(e)
    }
}

impl FromSpecImpl<PokerError> for GameError {
    open spec fn obeys_from_spec() -> bool {
        true
    }

    open spec fn from_spec(e: PokerError) -> Self {
        GameError::Poker(e)
    }
}

impl Player {
    /// Whether the player has to leave the table: with three penalties.
    pub fn is_out(&self) -> (out: bool)
        ensures
            out == (self.penalties >= 3),
    {
        self.penalties >= 3
    }
}

impl GameState {
    /// A table for `num_players` players, each dealt one card from a newly
    /// shuffled deck. With more players than a deck has cards nobody is
    /// seated.
    pub fn init_game(num_players: u8) -> (game: Self)
        ensures
            num_players <= 52 ==> exists|deck: Seq<Card>|
                deck.len() == 52 && deck.no_duplicates() && game@ == (#[trigger] Table::fresh(
                    num_players,
                    deck,
                )).deal_from(0).0,
            num_players > 52 ==> game@.seats.len() == 0 && game@.turn == 0 && game@.bet.is_none()
                && game@.deck.len() == 52 && game@.deck.no_duplicates(),
    {
        let mut new_game = Self {
            players: Vec::new(),
            current_turn: 0,
            current_bet: None,
            deck: Deck::get_full_deck(),
        };
        let _ = new_game.create_new_game(num_players);
        new_game
    }

    /// Makes the move of the player whose turn it is.
    pub fn process_move(&mut self, game_move: GameMove) -> (done: GameResult)
        requires
            old(self)@.can_make(game_move),
        ensures
            match game_move {
                GameMove::Bet(value) => done is Ok && final(self)@ == old(self)@.after_bet(value),
                GameMove::Call() => match old(self).current_bet {
                    None => done == Err::<(), GameError>(GameError::CallWithNoBet) && final(self)@
                        == old(self)@,
                    Some(bet) => final(self)@ == old(self)@.after_call(bet).0 && (done is Ok
                        <==> old(self)@.after_call(bet).1) && (done matches Err(error)
                        ==> error matches GameError::Poker(PokerError::NotEnoughCards(_))),
                },
            },
    {
        match game_move {
            GameMove::Bet(value) => {
                self.process_bet(value);
                Ok(())
            },
            GameMove::Call() => {
                match self.process_call() {
                    Ok(()) => Ok(()),
                    Err(error) => Err(error),
                }
            },
        }
    }

    /// Seats `num_players` players at the table in place of whoever sat
    /// there, with a newly shuffled deck, and deals each one card. Where the
    /// deck has too few cards for that, the table stays as it was.
    pub fn create_new_game(&mut self, num_players: u8) -> (done: GameResult)
        ensures
            done is Ok <==> num_players <= 52,
            done is Ok ==> exists|deck: Seq<Card>|
                deck.len() == 52 && deck.no_duplicates() && final(self)@ == (
                #[trigger] Table::fresh(num_players, deck)).deal_from(0).0,
            done matches Err(error) ==> final(self)@ == old(self)@ && error
                matches GameError::Poker(PokerError::NotEnoughCards(_)),
    {
        let deck = Deck::get_full_deck();
        proof {
            lemma_first_deal(num_players, deck@);
        }
        match Self::new_game_from_deck(num_players, deck) {
            Ok(new_game) => {
                *self = new_game;
                Ok(())
            },
            Err(error) => Err(error),
        }
    }

    /// A table at which `num_players` players sit down with the given deck
    /// and are dealt their first cards from it. Refused where the deck has
    /// too few cards.
    pub fn new_game_from_deck(num_players: u8, deck: Deck) -> (made: Result<Self, GameError>)
        ensures
            match made {
                Ok(game) => {
                    &&& Table::fresh(num_players, deck@).deal_from(0).1
                    &&& game@ == Table::fresh(num_players, deck@).deal_from(0).0
                },
                Err(error) => {
                    &&& !Table::fresh(num_players, deck@).deal_from(0).1
                    &&& error matches GameError::Poker(PokerError::NotEnoughCards(_))
                },
            },
    {
        let mut players: Vec<Player> = Vec::new();
        let mut name: u8 = 0;
        while name < num_players
            invariant
                name <= num_players,
                seats_of(players@) == Table::fresh(name, Seq::<Card>::empty()).seats,
            decreases num_players - name,
        {
            let ghost seated = players@;
            let player = Player { name, hand: Hand::empty_hand(), penalties: 0 };
            players.push(player);
            name += 1;
            proof {
                seated.lemma_push_map_commute(|player: Player| player@, player);
                assert(seats_of(players@) =~= Table::fresh(name, Seq::<Card>::empty()).seats);
            }
        }
        let mut new_game = Self { players, current_turn: 0, current_bet: None, deck };
        proof {
            assert(new_game@ == Table::fresh(num_players, deck@));
        }
        match new_game.deal_hands() {
            Ok(()) => Ok(new_game),
            Err(error) => Err(error),
        }
    }

    /// Deals every player new cards, in the order in which they sit: one
    /// card more than the player has penalties. Stops at the first player
    /// whom the deck cannot serve; the players before keep what they were
    /// dealt.
    pub fn deal_hands(&mut self) -> (done: GameResult)
        requires
            old(self)@.countable(),
        ensures
            final(self)@ == old(self)@.deal_from(0).0,
            done is Ok <==> old(self)@.deal_from(0).1,
            done matches Err(error) ==> error matches GameError::Poker(
                PokerError::NotEnoughCards(_),
            ),
    {
        let mut i: usize = 0;
        while i < self.players.len()
            invariant
                i <= self.players@.len(),
                self@.countable(),
                self@.deal_from(i as int) == old(self)@.deal_from(0),
            decreases self.players.len() - i,
        {
            proof {
                assert(self@.seats[i as int] == self.players@[i as int]@);
            }
            let num_cards = self.players[i].penalties + 1;
            let ghost before = self@;
            match self.deck.deal_cards(num_cards as usize) {
                Ok(hand) => {
                    self.players[i].hand = hand;
                    proof {
                        assert(self@.seats =~= before.seats.update(
                            i as int,
                            Seat { hand: hand.cards@, ..before.seats[i as int] },
                        ));
                    }
                },
                Err(error) => {
                    return Err(GameError::from(error));
                },
            }
            i += 1;
        }
        Ok(())
    }

    /// Whether `process_move` can make the given move at this table.
    pub fn can_process(&self, game_move: &GameMove) -> (can: bool)
        ensures
            can == self@.can_make(*game_move),
    {
        match game_move {
            GameMove::Bet(_) => self.current_turn < usize::MAX,
            GameMove::Call() => match self.current_bet {
                None => true,
                Some(bet) => {
                    let seated = if self.gather_all_cards().contains_hand_value(bet) {
                        self.current_turn < self.players.len()
                    } else if self.current_turn > 0 {
                        self.current_turn - 1 < self.players.len()
                    } else {
                        self.players.len() > 0
                    };
                    seated && self.penalties_are_countable()
                },
            },
        }
    }

    /// Whether nobody at the table has the highest number of penalties that
    /// a byte can hold.
    fn penalties_are_countable(&self) -> (countable: bool)
        ensures
            countable == self@.countable(),
    {
        let mut i: usize = 0;
        while i < self.players.len()
            invariant
                i <= self.players@.len(),
                forall|j: int| 0 <= j < i ==> (#[trigger] self@.seats[j]).penalties < 255,
            decreases self.players.len() - i,
        {
            proof {
                assert(self@.seats[i as int] == self.players@[i as int]@);
            }
            if self.players[i].penalties == 255 {
                return false;
            }
            i += 1;
        }
        true
    }

    /// Lets the bet stand and passes the turn on.
    pub fn process_bet(&mut self, value: HandValue)
        requires
            old(self).current_turn < usize::MAX,
        ensures
            final(self)@ == old(self)@.after_bet(value),
    {
        self.current_bet = Some(value);
        self.increment_turn();
    }

    /// Passes the turn to the next player, and from the last to the first.
    pub fn increment_turn(&mut self)
        requires
            old(self).current_turn < usize::MAX,
        ensures
            final(self)@ == (Table { turn: old(self)@.next_turn() as usize, ..old(self)@ }),
    {
        self.current_turn += 1;
        if self.current_turn == self.players.len() {
            self.current_turn = 0;
        }
    }

    /// Settles the bet that stands: whoever is wrong about it takes a
    /// penalty and moves next, the bet is gone, and new cards are dealt to
    /// all. Refused when no bet stands.
    pub fn process_call(&mut self) -> (done: GameResult)
        requires
            old(self).current_bet matches Some(bet) ==> old(self)@.can_settle(bet),
        ensures
            match old(self).current_bet {
                None => done == Err::<(), GameError>(GameError::CallWithNoBet) && final(self)@
                    == old(self)@,
                Some(bet) => final(self)@ == old(self)@.after_call(bet).0 && (done is Ok <==> old(
                    self,
                )@.after_call(bet).1) && (done matches Err(error) ==> error matches GameError::Poker(
                    PokerError::NotEnoughCards(_),
                )),
            },
    {
        match self.current_bet {
            None => Err(GameError::CallWithNoBet),
            Some(bet) => {
                let penalized_player = if self.gather_all_cards().contains_hand_value(bet) {
                    self.current_turn
                } else {
                    self.get_previous_player()
                };
                self.penalize_player(penalized_player);
                self.current_turn = penalized_player;
                self.current_bet = None;
                self.deal_hands()
            },
        }
    }

    /// The place of the player who moved before the current one.
    pub fn get_previous_player(&self) -> (place: usize)
        requires
            self.current_turn > 0 || self.players@.len() > 0,
        ensures
            place == self@.previous_turn(),
    {
        if self.current_turn > 0 {
            self.current_turn - 1
        } else {
            self.players.len() - 1
        }
    }

    /// Gives the player at `player` a penalty, and takes the player from
    /// the table if that was the third.
    pub fn penalize_player(&mut self, player: usize)
        requires
            player < old(self)@.seats.len(),
            old(self)@.seats[player as int].penalties < 255,
        ensures
            final(self)@ == (Table { seats: old(self)@.penalized(player as int), ..old(self)@ }),
    {
        let ghost before = self@;
        proof {
            assert(self@.seats[player as int] == self.players@[player as int]@);
        }
        self.players[player].penalties += 1;
        if self.players[player].is_out() {
            let _ = self.players.remove(player);
            proof {
                assert(self@.seats =~= before.penalized(player as int));
            }
        } else {
            proof {
                assert(self@.seats =~= before.penalized(player as int));
            }
        }
    }

    /// The cards of all players pooled, player after player.
    pub fn gather_all_cards(&self) -> (commune: Commune)
        ensures
            commune.cards@ == self@.pool(),
    {
        let mut cards: Vec<Card> = Vec::new();
        let mut i: usize = 0;
        while i < self.players.len()
            invariant
                i <= self.players@.len(),
                cards@ == pool_of(self@.seats, i as int),
            decreases self.players.len() - i,
        {
            let mut hand = copy_of(&self.players[i].hand.cards);
            cards.append(&mut hand);
            i += 1;
        }
        Commune { cards }
    }
}

/// A call can be settled at every table at which it is somebody's turn and
/// nobody has three penalties, and afterwards still nobody has three.
pub proof fn lemma_wf_can_settle(table: Table, bet: HandValue)
    requires
        table.wf(),
    ensures
        table.can_settle(bet),
        forall|i: int|
            0 <= i < table.penalized(table.loser(bet)).len() ==> (#[trigger] table.penalized(
                table.loser(bet),
            )[i]).penalties < 3,
{
}

/// What the first deal of a game comes to: where `n` players sit down with
/// a deck of 52 cards, the deck serves them all if they are at most 52.
/// The player with the name `i` gets the card that lies `i` places from the
/// end of the deck, and the deck keeps the cards before those.
pub proof fn lemma_first_deal(n: u8, deck: Seq<Card>)
    requires
        deck.len() == 52,
    ensures
        Table::fresh(n, deck).deal_from(0).1 <==> n <= 52,
        n <= 52 ==> ({
            let table = Table::fresh(n, deck).deal_from(0).0;
            &&& table.seats.len() == n
            &&& table.turn == 0
            &&& table.bet.is_none()
            &&& table.deck == deck.take(52 - n)
            &&& forall|i: int|
                0 <= i < n ==> #[trigger] table.seats[i] == (Seat {
                    name: i as u8,
                    hand: seq![deck[51 - i]],
                    penalties: 0,
                })
        }),
{
    lemma_deal_one_each(Table::fresh(n, deck), 0);
}

/// Dealing from place `from` on at a table where nobody has a penalty
/// hands each player from there on one card off the end of the deck, as far
/// as the cards go.
pub proof fn lemma_deal_one_each(table: Table, from: int)
    requires
        0 <= from <= table.seats.len(),
        forall|i: int| 0 <= i < table.seats.len() ==> (#[trigger] table.seats[i]).penalties == 0,
    ensures
        table.deal_from(from).1 <==> table.seats.len() - from <= table.deck.len(),
        table.deal_from(from).1 ==> ({
            let after = table.deal_from(from).0;
            &&& after.seats.len() == table.seats.len()
            &&& after.turn == table.turn
            &&& after.bet == table.bet
            &&& after.deck == table.deck.take(table.deck.len() - (table.seats.len() - from))
            &&& forall|i: int|
                0 <= i < from ==> #[trigger] after.seats[i] == table.seats[i]
            &&& forall|i: int|
                from <= i < table.seats.len() ==> #[trigger] after.seats[i] == (Seat {
                    hand: seq![table.deck[table.deck.len() - 1 - (i - from)]],
                    ..table.seats[i]
                })
        }),
    decreases table.seats.len() - from,
{
    if from < table.seats.len() {
        let seat = table.seats[from];
        match Deck::split(table.deck, 1) {
            None => {},
            Some((left, hand)) => {
                let next = Table {
                    seats: table.seats.update(from, Seat { hand, ..seat }),
                    deck: left,
                    ..table
                };
                lemma_deal_one_each(next, from + 1);
                assert(hand =~= seq![table.deck[table.deck.len() - 1]]);
                if next.deal_from(from + 1).1 {
                    let after = next.deal_from(from + 1).0;
                    assert(after.deck =~= table.deck.take(
                        table.deck.len() - (table.seats.len() - from),
                    ));
                    assert forall|i: int| from <= i < table.seats.len() implies #[trigger] after.seats[i]
                        == (Seat {
                        hand: seq![table.deck[table.deck.len() - 1 - (i - from)]],
                        ..table.seats[i]
                    }) by {
                        if i > from {
                            assert(after.seats[i] == (Seat {
                                hand: seq![next.deck[next.deck.len() - 1 - (i - (from + 1))]],
                                ..next.seats[i]
                            }));
                        }
                    }
                }
            },
        }
    }
}

} // verus!
