pub mod big_uint;
