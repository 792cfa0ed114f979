//! Response envelopes handed to the transport layer.

use vstd::prelude::*;

verus! {

/// A payload wrapped with its validity flag and status code.
#[derive(Debug)]
pub struct DataResponse<T> {
    pub data: T,
    pub valid: bool,
    pub status_code: i32,
}

impl<T> DataResponse<T> {
    pub fn new(data: T) -> (r: Self)
        ensures
            r.data == data,
            r.valid == true,
            r.status_code == 200,
    {
        Self { valid: true, status_code: 200, data }
    }

    pub fn get_data(self) -> (r: T)
        ensures
            r == self.data,
    {
        self.data
    }

    pub fn get_data_ref(&self) -> (r: &T)
        ensures
            *r == self.data,
    {
        &self.data
    }

    pub fn get_data_mut(&mut self) -> (r: &mut T)
        ensures
            *r == old(self).data,
            final(self).data == *final(r),
            final(self).valid == old(self).valid,
            final(self).status_code == old(self).status_code,
    {
        &mut self.data
    }
}

/// The same envelope for payloads serialized inline with the
/// envelope's own fields.
#[derive(Debug)]
pub struct FlatDataResponse<T> {
    pub data: T,
    pub valid: bool,
    pub status_code: i32,
}

impl<T> FlatDataResponse<T> {
    pub fn new(data: T) -> (r: Self)
        ensures
            r.data == data,
            r.valid == true,
            r.status_code == 200,
    {
        Self { valid: true, status_code: 200, data }
    }

    pub fn get_data(self) -> (r: T)
        ensures
            r == self.data,
    {
        self.data
    }

    pub fn get_data_ref(&self) -> (r: &T)
        ensures
            *r == self.data,
    {
        &self.data
    }

    pub fn get_data_mut(&mut self) -> (r: &mut T)
        ensures
            *r == old(self).data,
            final(self).data == *final(r),
            final(self).valid == old(self).valid,
            final(self).status_code == old(self).status_code,
    {
        &mut self.data
    }
}

} // verus!
