//! The data-request protocol with the oracle. A request is made in three legs,
//! each of which the host runs and hands back here: the bond transfer asks for
//! the oracle's configuration (`ft_create_data_request_callback`), the
//! configuration (or the failure to fetch it) comes back
//! (`proceed_data_request_creation`), and the bond is forwarded to the oracle
//! with the request while the excess is refunded (`create_data_request`).
use vstd::prelude::*;
use vstd::string::{to_string_from_display_ensures, StringExecFns};
use crate::market::{copy_sources, copy_strings, AMMContract, Market, Source};
use crate::pool::AmmError;

verus! {

/// The kind of answer a data request asks for.
pub enum DataRequestDataType {
    Number(u128),
    String,
}

/// The oracle's configuration: the token its bonds are paid in, and the validity bond.
pub struct OracleConfig {
    pub payment_token: String,
    pub validity_bond: u128,
}

/// The request that the oracle receives with the validity bond.
pub struct NewDataRequestArgs {
    pub sources: Option<Vec<Source>>,
    pub tags: Option<Vec<String>>,
    pub description: Option<String>,
    pub outcomes: Option<Vec<String>>,
    pub challenge_period: u64,
    pub data_type: DataRequestDataType,
    pub creator: String,
}

/// Arguments of a data-request creation that arrives with a bond transfer.
pub struct CreateDataRequestArgs {
    pub market_id: u64,
}

/// A data request waiting for the oracle's configuration.
pub struct PendingDataRequest {
    pub sender: String,
    pub payment_token: String,
    pub bond_in: u128,
    pub market_id: u64,
}

/// A transfer of `amount` of `payment_token` to `receiver`, carrying `request`.
pub struct DataRequestTransfer {
    pub payment_token: String,
    pub receiver: String,
    pub amount: u128,
    pub request: NewDataRequestArgs,
}

/// What the host must do once a data request is accepted: make the transfer,
/// then refund `refund` of the payment token to `refund_to` when it is not zero.
pub struct DataRequestCreation {
    pub transfer: DataRequestTransfer,
    pub refund: u128,
    pub refund_to: String,
}

impl AMMContract {
    /// First leg: a bond of `bond_in` in `payment_token` arrived from `sender`
    /// for market `payload.market_id` at time `now`. Returns what the second
    /// leg needs once the oracle's configuration is fetched.
    pub fn ft_create_data_request_callback(
        &self,
        sender: &String,
        payment_token: &String,
        bond_in: u128,
        payload: CreateDataRequestArgs,
        now: u64,
    ) -> (r: Result<PendingDataRequest, AmmError>)
        ensures
            r == Err::<PendingDataRequest, AmmError>(AmmError::Paused) <==> self.paused,
            r == Err::<PendingDataRequest, AmmError>(AmmError::UnknownMarket) <==> !self.paused
                && payload.market_id >= self.markets@.len(),
            r == Err::<PendingDataRequest, AmmError>(AmmError::ResolutionTimeNotReached) <==> !self.paused
                && payload.market_id < self.markets@.len() && now < self.markets@[payload.market_id as int].resolution_time,
            r is Ok <==> !self.paused && payload.market_id < self.markets@.len() && now
                >= self.markets@[payload.market_id as int].resolution_time,
            r is Ok ==> r->Ok_0 == (PendingDataRequest {
                sender: *sender,
                payment_token: *payment_token,
                bond_in,
                market_id: payload.market_id,
            }),
    {
        if self.paused {
            return Err(AmmError::Paused);
        }
        if payload.market_id >= self.markets.len() as u64 {
            return Err(AmmError::UnknownMarket);
        }
        if now < self.markets[payload.market_id as usize].resolution_time {
            return Err(AmmError::ResolutionTimeNotReached);
        }
        Ok(PendingDataRequest {
            sender: sender.clone(),
            payment_token: payment_token.clone(),
            bond_in,
            market_id: payload.market_id,
        })
    }

    /// Second leg: `config` is the oracle's configuration, `None` where fetching
    /// it failed. Records the request on the market and returns the transfer
    /// that creates it at the oracle and the refund of the excess bond.
    pub fn proceed_data_request_creation(
        &mut self,
        sender: String,
        payment_token: String,
        bond_in: u128,
        market_id: u64,
        config: Option<OracleConfig>,
    ) -> (r: Result<DataRequestCreation, AmmError>)
        requires
            old(self).wf(),
        ensures
            final(self).wf(),
            r.is_err() ==> *final(self) == *old(self),
            r == Err::<DataRequestCreation, AmmError>(AmmError::OracleConfigFetchFailed) <==> config.is_none(),
            r == Err::<DataRequestCreation, AmmError>(AmmError::UnknownMarket) <==> config.is_some() && market_id
                >= old(self).markets@.len(),
            r == Err::<DataRequestCreation, AmmError>(AmmError::AlreadyFinalized) <==> config.is_some() && market_id
                < old(self).markets@.len() && old(self).markets@[market_id as int].finalized,
            r == Err::<DataRequestCreation, AmmError>(AmmError::DataRequestExists) <==> config.is_some() && market_id
                < old(self).markets@.len() && !old(self).markets@[market_id as int].finalized
                && old(self).markets@[market_id as int].dr_creator.is_some(),
            r == Err::<DataRequestCreation, AmmError>(AmmError::InvalidPaymentToken) <==> config.is_some() && market_id
                < old(self).markets@.len() && !old(self).markets@[market_id as int].finalized
                && old(self).markets@[market_id as int].dr_creator.is_none()
                && config.unwrap().payment_token@ != payment_token@,
            r == Err::<DataRequestCreation, AmmError>(AmmError::InsufficientBond) <==> config.is_some() && market_id
                < old(self).markets@.len() && !old(self).markets@[market_id as int].finalized
                && old(self).markets@[market_id as int].dr_creator.is_none()
                && config.unwrap().payment_token@ == payment_token@ && bond_in < config.unwrap().validity_bond,
            r == Err::<DataRequestCreation, AmmError>(AmmError::ValidationError) <==> config.is_some() && market_id
                < old(self).markets@.len() && !old(self).markets@[market_id as int].finalized
                && old(self).markets@[market_id as int].dr_creator.is_none()
                && config.unwrap().payment_token@ == payment_token@ && bond_in >= config.unwrap().validity_bond
                && old(self).markets@[market_id as int].is_scalar
                && old(self).markets@[market_id as int].scalar_multiplier.is_none(),
            r is Err ==> r == Err::<DataRequestCreation, AmmError>(AmmError::OracleConfigFetchFailed)
                || r == Err::<DataRequestCreation, AmmError>(AmmError::UnknownMarket)
                || r == Err::<DataRequestCreation, AmmError>(AmmError::AlreadyFinalized)
                || r == Err::<DataRequestCreation, AmmError>(AmmError::DataRequestExists)
                || r == Err::<DataRequestCreation, AmmError>(AmmError::InvalidPaymentToken)
                || r == Err::<DataRequestCreation, AmmError>(AmmError::InsufficientBond)
                || r == Err::<DataRequestCreation, AmmError>(AmmError::ValidationError),
            r is Ok ==> ({
                let bond = config.unwrap().validity_bond;
                let pre = old(self).markets@[market_id as int];
                let post = final(self).markets@[market_id as int];
                let c = r->Ok_0;
                &&& final(self).markets@ == old(self).markets@.update(market_id as int, post)
                &&& post == Market {
                    payment_token: Some(payment_token),
                    dr_creator: Some(sender),
                    validity_bond: Some(bond),
                    ..pre
                }
                &&& final(self).paused == old(self).paused
                &&& final(self).oracle == old(self).oracle
                &&& final(self).collateral_whitelist == old(self).collateral_whitelist
                &&& c.refund + c.transfer.amount == bond_in
                &&& c.refund == bond_in - bond
                &&& c.refund_to@ == sender@
                &&& c.transfer.amount == bond
                &&& c.transfer.payment_token@ == payment_token@
                &&& c.transfer.receiver@ == old(self).oracle@
                &&& c.transfer.request.creator@ == sender@
                &&& c.transfer.request.challenge_period == pre.challenge_period
                &&& c.transfer.request.description matches Some(d) && d@ == pre.description@ + " - "@ + pre.extra_info@
                &&& (pre.is_scalar ==> c.transfer.request.outcomes.is_none()
                    && c.transfer.request.data_type == DataRequestDataType::Number(pre.scalar_multiplier.unwrap()))
                &&& (!pre.is_scalar ==> (c.transfer.request.outcomes matches Some(o) && o@ == pre.outcome_tags@)
                    && c.transfer.request.data_type == DataRequestDataType::String)
                &&& c.transfer.request.sources matches Some(s) && s@ == pre.sources@
                &&& c.transfer.request.tags matches Some(t) && t@.len() == 1
                    && to_string_from_display_ensures::<u64>(&market_id, t@[0])
            }),
    {
        let config = match config {
            Some(c) => c,
            None => {
                return Err(AmmError::OracleConfigFetchFailed);
            },
        };
        if market_id >= self.markets.len() as u64 {
            return Err(AmmError::UnknownMarket);
        }
        let id = market_id as usize;
        if self.markets[id].finalized {
            return Err(AmmError::AlreadyFinalized);
        }
        if self.markets[id].dr_creator.is_some() {
            return Err(AmmError::DataRequestExists);
        }
        if config.payment_token != payment_token {
            return Err(AmmError::InvalidPaymentToken);
        }
        let validity_bond = config.validity_bond;
        if bond_in < validity_bond {
            return Err(AmmError::InsufficientBond);
        }
        if self.markets[id].is_scalar && self.markets[id].scalar_multiplier.is_none() {
            return Err(AmmError::ValidationError);
        }
        let request = self.data_request_args(id, market_id, &sender);
        let transfer = self.create_data_request(&payment_token, validity_bond, request);
        let ghost pre = *self;
        let refund_to = sender.clone();
        self.markets[id].payment_token = Some(payment_token);
        self.markets[id].dr_creator = Some(sender);
        self.markets[id].validity_bond = Some(validity_bond);
        proof {
            assert(self.markets@ =~= pre.markets@.update(id as int, self.markets@[id as int]));
            assert forall|j: int| 0 <= j < self.markets@.len() implies (#[trigger] self.markets@[j]).wf() by {
                if j != id {
                    assert(self.markets@[j] == pre.markets@[j]);
                }
            }
        }
        Ok(DataRequestCreation { transfer, refund: bond_in - validity_bond, refund_to })
    }

    /// The request that market `id` sends to the oracle on behalf of `creator`.
    fn data_request_args(&self, id: usize, market_id: u64, creator: &String) -> (r: NewDataRequestArgs)
        requires
            id == market_id,
            id < self.markets@.len(),
            self.markets@[id as int].is_scalar ==> self.markets@[id as int].scalar_multiplier.is_some(),
        ensures
            ({
                let m = self.markets@[id as int];
                &&& r.creator@ == creator@
                &&& r.challenge_period == m.challenge_period
                &&& r.description matches Some(d) && d@ == m.description@ + " - "@ + m.extra_info@
                &&& (m.is_scalar ==> r.outcomes.is_none() && r.data_type == DataRequestDataType::Number(
                    m.scalar_multiplier.unwrap(),
                ))
                &&& (!m.is_scalar ==> (r.outcomes matches Some(o) && o@ == m.outcome_tags@) && r.data_type
                    == DataRequestDataType::String)
                &&& r.sources matches Some(s) && s@ == m.sources@
                &&& r.tags matches Some(t) && t@.len() == 1 && to_string_from_display_ensures::<u64>(&market_id, t@[0])
            }),
    {
        let m = &self.markets[id];
        let outcomes: Option<Vec<String>>;
        let data_type: DataRequestDataType;
        if m.is_scalar {
            outcomes = None;
            data_type = match m.scalar_multiplier {
                Some(v) => DataRequestDataType::Number(v),
                None => DataRequestDataType::String,
            };
        } else {
            outcomes = Some(copy_strings(&m.outcome_tags));
            data_type = DataRequestDataType::String;
        }
        let mut description = m.description.clone();
        proof {
            reveal_strlit(" - ");
        }
        description.append(" - ");
        description.append(m.extra_info.as_str());
        let mut tags: Vec<String> = Vec::new();
        tags.push(market_id.to_string());
        NewDataRequestArgs {
            sources: Some(copy_sources(&m.sources)),
            tags: Some(tags),
            description: Some(description),
            outcomes,
            challenge_period: m.challenge_period,
            data_type,
            creator: creator.clone(),
        }
    }

    /// Third leg: the transfer of `amount` of `payment_token` to the oracle
    /// that carries `request_args`.
    pub fn create_data_request(&self, payment_token: &String, amount: u128, request_args: NewDataRequestArgs) -> (r: DataRequestTransfer)
        ensures
            r.payment_token@ == payment_token@,
            r.receiver@ == self.oracle@,
            r.amount == amount,
            r.request == request_args,
    {
        DataRequestTransfer {
            payment_token: payment_token.clone(),
            receiver: self.oracle.clone(),
            amount,
            request: request_args,
        }
    }
}

} // verus!
