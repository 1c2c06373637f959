[package]
name = "execution_graph"
version = "0.1.0"
edition = "2021"
publish = false

[dependencies]
bincode = "=1.3.3"
libafl = { version = "=0.11.2", default-features = false, features = ["std", "prelude"] }
libafl_bolts = { version = "=0.11.2", default-features = false, features = ["std"] }
libafl_targets = { version = "=0.11.2", default-features = false, features = ["std", "libfuzzer"] }
mpi = "=0.6.0"
