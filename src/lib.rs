pub mod primality;
pub mod prime_numbers;
