use vstd::prelude::*;
use crate::model::DomainError;
use crate::value::{Value, ValueModel};
use crate::array::opt_models;

verus! {

pub open spec fn res_nat(r: Result<usize, DomainError>) -> Result<nat, DomainError> {
    match r {
        Ok(n) => Ok(n as nat),
        Err(e) => Err(e),
    }
}

pub open spec fn res_opt_nat(r: Result<Option<usize>, DomainError>) -> Result<Option<nat>, DomainError> {
    match r {
        Ok(Some(n)) => Ok(Some(n as nat)),
        Ok(None) => Ok(None),
        Err(e) => Err(e),
    }
}

pub open spec fn res_opt_bytes(r: Result<Option<Vec<u8>>, DomainError>) -> Result<Option<Seq<u8>>, DomainError> {
    match r {
        Ok(Some(v)) => Ok(Some(v@)),
        Ok(None) => Ok(None),
        Err(e) => Err(e),
    }
}

pub open spec fn res_byte_list(r: Result<Vec<Vec<u8>>, DomainError>) -> Result<Seq<Seq<u8>>, DomainError> {
    match r {
        Ok(v) => Ok(v.deep_view()),
        Err(e) => Err(e),
    }
}

pub open spec fn res_values(r: Result<Vec<Value>, DomainError>) -> Result<Seq<ValueModel>, DomainError> {
    match r {
        Ok(v) => Ok(crate::value::models_of(v@)),
        Err(e) => Err(e),
    }
}

pub open spec fn res_opt_values(r: Result<Vec<Option<Value>>, DomainError>) -> Result<Seq<Option<ValueModel>>, DomainError> {
    match r {
        Ok(v) => Ok(opt_models(v@)),
        Err(e) => Err(e),
    }
}

} // verus!
