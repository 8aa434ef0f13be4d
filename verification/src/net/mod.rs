pub mod arp;
pub mod dhcp;
pub mod ethernet;
pub mod ip;
pub mod stack;
pub mod tcp;
pub mod udp;
