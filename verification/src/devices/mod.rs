//! What device drivers compute, apart from the port accesses themselves.

pub mod pcspk;
