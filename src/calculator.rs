//! The fee engine: the configured percent, its owner and the whitelist of
//! tokens that pay a fee.
use vstd::prelude::*;

use crate::account::{account_views, AccountId};
use crate::percent::{
    format_percent, format_percent_spec, parse_percent, parse_percent_spec, ParseError,
    DEFAULT_PERCENT, MAX_FEE_PERCENT, MIN_FEE_PERCENT,
};

verus! {

/// Fees are `amount * percent / FEE_DENOMINATOR`, the percent being in
/// hundredths of a percent.
pub const FEE_DENOMINATOR: u128 = 10000;

/// The fee on `amount` at `percent` hundredths of a percent, rounded down.
/// A product that does not fit in `u128` counts as `u128::MAX`.
pub open spec fn fee_spec(percent: u64, amount: u128) -> u128 {
    let product = percent * amount;
    if product > u128::MAX {
        (u128::MAX / FEE_DENOMINATOR) as u128
    } else {
        (product / FEE_DENOMINATOR as int) as u128
    }
}

/// Removing an entry from a list without duplicates removes its value from
/// the list's set, and leaves no duplicates.
proof fn lemma_remove_unique(s: Seq<Seq<char>>, i: int)
    requires
        s.no_duplicates(),
        0 <= i < s.len(),
    ensures
        s.remove(i).no_duplicates(),
        s.remove(i).to_set() == s.to_set().remove(s[i]),
{
    let r = s.remove(i);
    assert forall|x: Seq<char>| r.to_set().contains(x) <==> s.to_set().remove(s[i]).contains(x) by {
        if r.contains(x) {
            let k = choose|k: int| 0 <= k < r.len() && r[k] == x;
            if k < i {
                assert(s[k] == x);
            } else {
                assert(s[k + 1] == x);
            }
        }
        if s.contains(x) && x != s[i] {
            let k = choose|k: int| 0 <= k < s.len() && s[k] == x;
            if k < i {
                assert(r[k] == x);
            } else {
                assert(r[k - 1] == x);
            }
        }
    }
    assert(r.to_set() =~= s.to_set().remove(s[i]));
    assert forall|a: int, b: int| 0 <= a < r.len() && 0 <= b < r.len() && a != b implies r[a] != r[b] by {
        let sa = if a < i { a } else { a + 1 };
        let sb = if b < i { b } else { b + 1 };
        assert(r[a] == s[sa] && r[b] == s[sb]);
    }
}

/// Why a call on the calculator was refused.
#[derive(Debug)]
pub enum FeeError {
    /// Only the owner may change the percent.
    Unauthorized,
    /// The percent string was rejected.
    InvalidPercent(ParseError),
    /// The token is already in the whitelist.
    AlreadyPresent,
    /// The token is not in the whitelist.
    NotPresent(AccountId),
}

impl FeeError {
    pub open spec fn message_spec(&self) -> Seq<char> {
        match self {
            FeeError::Unauthorized => "only the owner can change the fee percent"@,
            FeeError::InvalidPercent(e) => "Couldn't parse percent: "@ + e.message_spec(),
            FeeError::AlreadyPresent => "Token is already present"@,
            FeeError::NotPresent(t) => "Nothing to remove, token: "@ + t@ + " hasn't been added"@,
        }
    }

    /// Human-readable description of the error.
    pub fn message(&self) -> (r: String)
        ensures
            r@ == self.message_spec(),
    {
        match self {
            FeeError::Unauthorized => String::from_str("only the owner can change the fee percent"),
            FeeError::InvalidPercent(e) => {
                let mut r = String::from_str("Couldn't parse percent: ");
                r.append(e.message());
                r
            },
            FeeError::AlreadyPresent => String::from_str("Token is already present"),
            FeeError::NotPresent(t) => {
                let mut r = String::from_str("Nothing to remove, token: ");
                r.append(t.as_str());
                r.append(" hasn't been added");
                r
            },
        }
    }
}

/// The fee configuration: a percent between `MIN_FEE_PERCENT` and
/// `MAX_FEE_PERCENT`, the account that may change it, and the tokens that
/// pay a fee, each listed once.
#[derive(Debug)]
pub struct FeesCalculator {
    percent: u64,
    owner: AccountId,
    supported_tokens: Vec<AccountId>,
}

impl FeesCalculator {
    /// The configured percent, in hundredths of a percent.
    pub closed spec fn percent_spec(&self) -> u64 {
        self.percent
    }

    pub closed spec fn owner_spec(&self) -> Seq<char> {
        self.owner@
    }

    /// The whitelist in its stored order.
    pub closed spec fn token_list(&self) -> Seq<Seq<char>> {
        account_views(self.supported_tokens@)
    }

    pub open spec fn whitelist(&self) -> Set<Seq<char>> {
        self.token_list().to_set()
    }

    pub open spec fn wf(&self) -> bool {
        &&& MIN_FEE_PERCENT <= self.percent_spec() <= MAX_FEE_PERCENT
        &&& self.token_list().no_duplicates()
    }

    /// What `calculate_fees` returns for `amount` of `token`.
    pub open spec fn fees_spec(&self, amount: u128, token: Seq<char>) -> u128 {
        if self.whitelist().contains(token) {
            fee_spec(self.percent_spec(), amount)
        } else {
            0
        }
    }

    /// A calculator rebuilt from stored parts: `None` when `percent` is
    /// outside `MIN_FEE_PERCENT..=MAX_FEE_PERCENT`.
    pub fn from_parts(percent: u64, owner: AccountId, tokens: Vec<AccountId>) -> (r: Option<Self>)
        ensures
            r is Some <==> MIN_FEE_PERCENT <= percent <= MAX_FEE_PERCENT,
            r matches Some(c) ==> c.wf() && c.percent_spec() == percent && c.owner_spec() == owner@
                && c.whitelist() == account_views(tokens@).to_set(),
    {
        if percent < MIN_FEE_PERCENT || percent > MAX_FEE_PERCENT {
            return None;
        }
        let mut c = FeesCalculator::new(owner, tokens);
        c.percent = percent;
        Some(c)
    }

    /// The configured percent, in hundredths of a percent.
    pub fn percent(&self) -> (r: u64)
        ensures
            r == self.percent_spec(),
    {
        self.percent
    }

    /// The account that may change the percent.
    pub fn owner(&self) -> (r: &AccountId)
        ensures
            r@ == self.owner_spec(),
    {
        &self.owner
    }

    /// Index of `token` in the whitelist, if it is there.
    fn position(&self, token: &AccountId) -> (r: Option<usize>)
        ensures
            r is Some <==> self.whitelist().contains(token@),
            r matches Some(i) ==> i < self.supported_tokens@.len() && self.token_list()[i as int]
                == token@,
    {
        let mut i: usize = 0;
        while i < self.supported_tokens.len()
            invariant
                i <= self.supported_tokens@.len(),
                forall|j: int| 0 <= j < i ==> self.token_list()[j] != token@,
            decreases self.supported_tokens@.len() - i,
        {
            assert(self.token_list()[i as int] == self.supported_tokens@[i as int]@);
            if self.supported_tokens[i].eq(token) {
                assert(self.token_list().contains(token@));
                return Some(i);
            }
            i = i + 1;
        }
        proof {
            if self.whitelist().contains(token@) {
                assert(self.token_list().contains(token@));
            }
        }
        None
    }

    /// A calculator owned by `owner`, at `DEFAULT_PERCENT`, whose whitelist
    /// holds `tokens` with duplicates dropped.
    pub fn new(owner: AccountId, tokens: Vec<AccountId>) -> (r: Self)
        ensures
            r.wf(),
            r.percent_spec() == DEFAULT_PERCENT,
            r.owner_spec() == owner@,
            r.whitelist() == account_views(tokens@).to_set(),
    {
        let ghost given = account_views(tokens@);
        let mut rest = tokens;
        let mut calculator = FeesCalculator {
            percent: DEFAULT_PERCENT,
            owner,
            supported_tokens: Vec::new(),
        };
        let ghost mut taken: int = 0;
        assert(calculator.token_list() =~= Seq::<Seq<char>>::empty());
        while rest.len() > 0
            invariant
                calculator.wf(),
                calculator.percent_spec() == DEFAULT_PERCENT,
                calculator.owner_spec() == owner@,
                0 <= taken <= given.len(),
                account_views(rest@) =~= given.subrange(taken, given.len() as int),
                calculator.whitelist() =~= given.subrange(0, taken).to_set(),
            decreases rest@.len(),
        {
            assert(account_views(rest@)[0] == rest@[0]@);
            let ghost before = rest@;
            let ghost tail = given.subrange(taken, given.len() as int);
            assert(account_views(rest@).len() == rest@.len());
            assert(tail.len() == given.len() - taken);
            assert(taken < given.len());
            assert(tail[0] == given[taken]);
            let token = rest.remove(0);
            assert(token@ == given[taken]);
            assert(account_views(rest@) =~= given.subrange(taken + 1, given.len() as int)) by {
                assert forall|k: int| 0 <= k < rest@.len() implies #[trigger] rest@[k]@ == given[taken + 1 + k] by {
                    assert(rest@[k] == before[k + 1]);
                    assert(account_views(before)[k + 1] == before[k + 1]@);
                    assert(tail[k + 1] == given[taken + 1 + k]);
                }
            }
            let ghost old_list = calculator.token_list();
            if calculator.position(&token).is_none() {
                calculator.supported_tokens.push(token);
                assert(calculator.token_list() =~= old_list.push(token@));
                proof {
                    old_list.lemma_push_to_set_commute(token@);
                }
            }
            proof {
                assert(given.subrange(0, taken + 1) =~= given.subrange(0, taken).push(given[taken]));
                given.subrange(0, taken).lemma_push_to_set_commute(given[taken]);
                taken = taken + 1;
            }
        }
        assert(given.subrange(0, taken) =~= given);
        calculator
    }

    /// The fee for a transfer of `amount` of `token_id`: the configured
    /// percent of it, rounded down, for a whitelisted token, and zero for
    /// any other. The destination does not change the fee.
    pub fn calculate_fees(
        &self,
        amount: u128,
        token_id: &AccountId,
        target_network: &AccountId,
        target_address: String,
    ) -> (r: u128)
        ensures
            r == self.fees_spec(amount, token_id@),
    {
        let _ = (target_network, target_address);
        if self.position(token_id).is_some() {
            match (self.percent as u128).checked_mul(amount) {
                Some(product) => product / FEE_DENOMINATOR,
                None => u128::MAX / FEE_DENOMINATOR,
            }
        } else {
            0
        }
    }

    /// Sets the percent from its decimal text, if `caller` is the owner and
    /// the text parses; otherwise nothing changes.
    pub fn set_fee_percent(&mut self, caller: &AccountId, percent: &str) -> (r: Result<(), FeeError>)
        requires
            old(self).wf(),
        ensures
            final(self).wf(),
            final(self).owner_spec() == old(self).owner_spec(),
            final(self).token_list() == old(self).token_list(),
            caller@ != old(self).owner_spec() ==> (r matches Err(FeeError::Unauthorized))
                && final(self).percent_spec() == old(self).percent_spec(),
            caller@ == old(self).owner_spec() ==> match parse_percent_spec(percent@) {
                Ok(v) => r is Ok && final(self).percent_spec() == v,
                Err(e) => r == Err::<(), FeeError>(FeeError::InvalidPercent(e))
                    && final(self).percent_spec() == old(self).percent_spec(),
            },
    {
        if !caller.eq(&self.owner) {
            return Err(FeeError::Unauthorized);
        }
        match parse_percent(percent) {
            Ok(value) => {
                self.percent = value;
                Ok(())
            },
            Err(e) => Err(FeeError::InvalidPercent(e)),
        }
    }

    /// The configured percent with exactly two decimals (`"5.00"`).
    pub fn get_fee_percent(&self) -> (r: String)
        ensures
            r@ == format_percent_spec(self.percent_spec() as nat),
    {
        format_percent(self.percent)
    }

    /// The whitelisted tokens, each once, in their stored order.
    pub fn supported_tokens(&self) -> (r: Vec<&AccountId>)
        ensures
            r@.len() == self.token_list().len(),
            forall|i: int| 0 <= i < r@.len() ==> (#[trigger] r@[i])@ == self.token_list()[i],
    {
        let mut out: Vec<&AccountId> = Vec::new();
        let mut i: usize = 0;
        while i < self.supported_tokens.len()
            invariant
                i <= self.supported_tokens@.len(),
                out@.len() == i,
                forall|j: int| 0 <= j < i ==> (#[trigger] out@[j])@ == self.token_list()[j],
            decreases self.supported_tokens@.len() - i,
        {
            out.push(&self.supported_tokens[i]);
            i = i + 1;
        }
        out
    }

    /// Adds `token_id` to the whitelist; refused when it is already there,
    /// and then nothing changes. Either way the token is listed afterwards.
    pub fn add_supported_token(&mut self, token_id: AccountId) -> (r: Result<(), FeeError>)
        requires
            old(self).wf(),
        ensures
            final(self).wf(),
            final(self).percent_spec() == old(self).percent_spec(),
            final(self).owner_spec() == old(self).owner_spec(),
            final(self).whitelist().contains(token_id@),
            old(self).whitelist().contains(token_id@) ==> (r matches Err(FeeError::AlreadyPresent))
                && final(self).token_list() == old(self).token_list(),
            !old(self).whitelist().contains(token_id@) ==> r is Ok && final(self).token_list()
                == old(self).token_list().push(token_id@),
            final(self).whitelist() == old(self).whitelist().insert(token_id@),
    {
        let ghost old_list = self.token_list();
        if self.position(&token_id).is_some() {
            assert(old_list.to_set().insert(token_id@) =~= old_list.to_set());
            return Err(FeeError::AlreadyPresent);
        }
        self.supported_tokens.push(token_id);
        assert(self.token_list() =~= old_list.push(token_id@));
        proof {
            old_list.lemma_push_to_set_commute(token_id@);
            assert(self.token_list()[old_list.len() as int] == token_id@);
        }
        Ok(())
    }

    /// Removes `token_id` from the whitelist; refused when it is not there,
    /// and then nothing changes.
    pub fn remove_supported_token(&mut self, token_id: &AccountId) -> (r: Result<(), FeeError>)
        requires
            old(self).wf(),
        ensures
            final(self).wf(),
            final(self).percent_spec() == old(self).percent_spec(),
            final(self).owner_spec() == old(self).owner_spec(),
            !old(self).whitelist().contains(token_id@) ==> (r matches Err(FeeError::NotPresent(t))
                && t@ == token_id@) && final(self).token_list() == old(self).token_list(),
            old(self).whitelist().contains(token_id@) ==> r is Ok,
            final(self).whitelist() == old(self).whitelist().remove(token_id@),
    {
        let ghost old_list = self.token_list();
        match self.position(token_id) {
            None => {
                assert(old_list.to_set().remove(token_id@) =~= old_list.to_set());
                Err(FeeError::NotPresent(token_id.duplicate()))
            },
            Some(i) => {
                self.supported_tokens.remove(i);
                assert(self.token_list() =~= old_list.remove(i as int));
                proof {
                    lemma_remove_unique(old_list, i as int);
                }
                Ok(())
            },
        }
    }
}

/// For a fixed configuration and token, a larger amount never pays a
/// smaller fee.
pub proof fn lemma_fees_monotonic(c: FeesCalculator, token: Seq<char>, a1: u128, a2: u128)
    requires
        a1 <= a2,
    ensures
        c.fees_spec(a1, token) <= c.fees_spec(a2, token),
{
    let p = c.percent_spec();
    assert(p * a1 <= p * a2) by (nonlinear_arith)
        requires
            a1 <= a2,
    ;
    if p * a2 <= u128::MAX {
        assert((p * a1) / 10000 <= (p * a2) / 10000) by (nonlinear_arith)
            requires
                p * a1 <= p * a2,
                p * a1 >= 0,
        ;
    } else if p * a1 <= u128::MAX {
        assert((p * a1) / 10000 <= u128::MAX / 10000) by (nonlinear_arith)
            requires
                p * a1 <= u128::MAX,
                p * a1 >= 0,
        ;
    }
}

/// A token outside the whitelist pays no fee, whatever the amount and the
/// percent.
pub proof fn lemma_unlisted_token_pays_nothing(c: FeesCalculator, token: Seq<char>, amount: u128)
    requires
        !c.whitelist().contains(token),
    ensures
        c.fees_spec(amount, token) == 0,
{
}

/// At a valid percent the fee is at most a tenth of the amount, unless the
/// product overflows.
pub proof fn lemma_fee_at_most_a_tenth(percent: u64, amount: u128)
    requires
        MIN_FEE_PERCENT <= percent <= MAX_FEE_PERCENT,
        percent * amount <= u128::MAX,
    ensures
        fee_spec(percent, amount) <= amount / 10,
{
    assert((percent * amount) / 10000 <= amount / 10) by (nonlinear_arith)
        requires
            0 <= percent <= 1000,
            amount >= 0,
    ;
}

} // verus!
