pub mod modulo_arithmetic;
pub mod sieve_of_eratosthenes;
